//! The TLS 1.3 client.

use std::cell::RefCell;
use std::collections::VecDeque;
use std::rc::Rc;

use corduit::der::{is_anchorable, is_checkable, is_pair, is_readable};
use corduit::protocol::tls13::client::{
    alert_parts, assemble, begin, parse_alpn_extension, parse_certificate_message, Fill, Flight,
    Opening, ServerAuth, Tls13ClientConfig, Tls13Stream, X509ServerAuth,
};
use corduit::protocol::tls13::codec::{
    cert_verify_content, encode_extension, hs_message, parse_extensions, parse_server_hello,
    read_hs_message, DOWNGRADE_TLS12, EXT_ALPN, EXT_EC_POINT_FORMATS, EXT_KEY_SHARE, EXT_PADDING,
    EXT_SERVER_NAME, EXT_SIGNATURE_ALGORITHMS, EXT_SUPPORTED_GROUPS, EXT_SUPPORTED_VERSIONS,
    GROUP_X25519, HRR_RANDOM, HS_CLIENT_HELLO, HS_FINISHED, SUITE_AES_128,
};
use corduit::protocol::tls13::fingerprint::{
    build_client_hello, ClientHelloSpec, Fingerprint, TlsProfile, KNOWN_OMISSIONS,
    SESSION_ID_OFFSET,
};
use corduit::protocol::tls13::key_schedule::{
    hkdf_expand, HandshakeSecrets, SuiteHash, TrafficKey,
};
use corduit::protocol::tls13::record::{
    parse_record_header, plaintext_record, RecordProtector, ALERT_WARNING, CONTENT_ALERT,
    CONTENT_APPLICATION_DATA, CONTENT_HANDSHAKE,
};
use corduit::protocol::tls13::{Result as TlsResult, Tls13Error};
use corduit::x509::{check_chain, read_leaf, LeafCertificate};
use courierust::courierust_fingerprint::{ja3_hash, ja3_string, ja4};
use courierust::courierust_io::{Read as CRead, Write as CWrite};
use courierust::courierust_tls::crypto::ed25519::Sha512;
use courierust::courierust_tls::crypto::hash::Digest;
use courierust::courierust_tls::x509::RootStore;
use courierust::courierust_tls::{Identity, ServerConfig, TlsAcceptor, TlsVersion};

fn hex(s: &str) -> Vec<u8> {
    let compact: Vec<u8> = s.bytes().filter(|b| !b.is_ascii_whitespace()).collect();
    compact
        .chunks(2)
        .map(|pair| {
            let hi = (pair[0] as char).to_digit(16).expect("hex digit") as u8;
            let lo = (pair[1] as char).to_digit(16).expect("hex digit") as u8;
            (hi << 4) | lo
        })
        .collect()
}

// -- messages ------------------------------------------------------------------

#[test]
fn handshake_framing_round_trips() {
    let msg = hs_message(HS_FINISHED, &[1, 2, 3]);
    assert_eq!(msg[0], HS_FINISHED);
    let (ty, body, used) = read_hs_message(&msg).expect("complete");
    assert_eq!((ty, body, used), (HS_FINISHED, &[1u8, 2, 3][..], 7));
    // Truncated message: no decode, and the caller retries after more I/O.
    assert!(read_hs_message(&msg[..5]).is_none());
}

#[test]
fn extension_block_round_trips() {
    let mut block = Vec::new();
    let mut inner = encode_extension(EXT_SERVER_NAME, b"example.com");
    inner.extend_from_slice(&encode_extension(EXT_PADDING, &[]));
    block.extend_from_slice(&(inner.len() as u16).to_be_bytes());
    block.extend_from_slice(&inner);
    let mut pos = 0usize;
    let exts = parse_extensions(&block, &mut pos).expect("valid");
    assert_eq!(pos, block.len());
    assert_eq!(exts.len(), 2);
    assert_eq!(exts[0].0, EXT_SERVER_NAME);
    assert_eq!(exts[0].1, b"example.com");
    assert_eq!(exts[1], (EXT_PADDING, Vec::new()));
}

#[test]
fn server_hello_parses_x25519_key_share() {
    let mut body = Vec::new();
    body.extend_from_slice(&[0x03, 0x03]); // legacy_version
    body.extend_from_slice(&[0x11; 32]); // random
    body.push(0); // session id length
    body.extend_from_slice(&SUITE_AES_128.to_be_bytes());
    body.push(0); // compression
    let mut ks = Vec::new();
    ks.extend_from_slice(&GROUP_X25519.to_be_bytes());
    ks.extend_from_slice(&(32u16).to_be_bytes());
    ks.extend_from_slice(&[0x22; 32]);
    let exts = encode_extension(EXT_KEY_SHARE, &ks);
    body.extend_from_slice(&(exts.len() as u16).to_be_bytes());
    body.extend_from_slice(&exts);

    let hello = parse_server_hello(&body).expect("valid ServerHello");
    assert_eq!(hello.suite, SUITE_AES_128);
    assert_eq!(hello.key_share, [0x22; 32]);
}

#[test]
fn server_hello_rejects_hello_retry_request() {
    let mut body = Vec::new();
    body.extend_from_slice(&[0x03, 0x03]);
    body.extend_from_slice(&HRR_RANDOM);
    body.push(0);
    body.extend_from_slice(&SUITE_AES_128.to_be_bytes());
    body.push(0);
    body.extend_from_slice(&[0x00, 0x00]); // empty extensions
    match parse_server_hello(&body) {
        Err(Tls13Error::Unsupported(m)) => assert!(m.contains("HelloRetryRequest")),
        other => panic!("expected HelloRetryRequest rejection, got {other:?}"),
    }
}

#[test]
fn server_hello_rejects_tls12_downgrade_sentinel() {
    let mut body = Vec::new();
    body.extend_from_slice(&[0x03, 0x03]);
    let mut random = [0u8; 32];
    random[24..].copy_from_slice(&DOWNGRADE_TLS12);
    body.extend_from_slice(&random);
    body.push(0);
    body.extend_from_slice(&SUITE_AES_128.to_be_bytes());
    body.push(0);
    body.extend_from_slice(&[0x00, 0x00]);
    assert!(matches!(parse_server_hello(&body), Err(Tls13Error::Unsupported(_))));
}

#[test]
fn server_hello_rejects_unknown_suite() {
    let mut body = Vec::new();
    body.extend_from_slice(&[0x03, 0x03]);
    body.extend_from_slice(&[0x11; 32]);
    body.push(0);
    body.extend_from_slice(&0xc02fu16.to_be_bytes()); // TLS 1.2 suite
    body.push(0);
    body.extend_from_slice(&[0x00, 0x00]);
    assert!(matches!(parse_server_hello(&body), Err(Tls13Error::Unsupported(_))));
}

/// The CertificateVerify content is exactly RFC 8446 §4.4.3: 64 spaces,
/// the context string incl. its NUL, then the transcript hash.
#[test]
fn cert_verify_content_matches_rfc8446() {
    let hash = [0xAB; 32];
    let content = cert_verify_content(&hash, false);
    assert_eq!(&content[..64], &[0x20u8; 64]);
    assert_eq!(&content[64..64 + 34], b"TLS 1.3, server CertificateVerify\x00");
    assert_eq!(&content[64 + 34..], &hash[..]);
    assert_eq!(content.len(), 64 + 34 + 32);

    let client = cert_verify_content(&hash, true);
    assert_eq!(&client[64..64 + 34], b"TLS 1.3, client CertificateVerify\x00");
}

#[test]
fn alerts_and_lists_are_read() {
    assert_eq!(alert_parts(&[2, 40]), (2, 40));
    let alpn = parse_alpn_extension(&[0, 9, 0, 16, 0, 5, 0, 3, 2, b'h', b'2']).unwrap();
    assert_eq!(alpn.as_deref(), Some(&b"h2"[..]));
    assert_eq!(parse_alpn_extension(&[0, 0]).unwrap(), None);
    assert!(parse_alpn_extension(&[0, 9, 2, b'h', b'2']).is_err());
    assert!(parse_certificate_message(&[0, 0, 0, 0]).is_err());
    let chain = parse_certificate_message(&[0, 0, 0, 7, 0, 0, 2, 0xaa, 0xbb, 0, 0]).unwrap();
    assert_eq!(chain, vec![vec![0xaa, 0xbb]]);
    assert_eq!(
        Tls13Error::Alert { level: 2, description: 40 }.message().is_empty(),
        false
    );
}

// -- keys -------------------------------------------------------------------------

/// RFC 5869 appendix A.2 (SHA-256, 82-byte OKM) — pins `hkdf_expand`
/// against the published test vector (PRK and OKM are the RFC's).
#[test]
fn hkdf_expand_matches_rfc5869_a2() {
    let ikm: Vec<u8> = (0u8..=0x4f).collect();
    let salt: Vec<u8> = (0x60u8..=0xaf).collect();
    let info: Vec<u8> = (0xb0u8..=0xff).collect();

    // PRK = HMAC-SHA256(salt, IKM) (RFC 5869 §2.2, A.2 value).
    let prk = SuiteHash::Sha256.hmac(&salt, &ikm);
    assert_eq!(
        prk,
        hex("06 a6 b8 8c 58 53 36 1a 06 10 4c 9c eb 35 b4 5c
             ef 76 00 14 90 46 71 01 4a 19 3f 40 c1 5f c2 44"),
        "RFC 5869 A.2 PRK"
    );
    let mut okm = [0u8; 82];
    hkdf_expand(SuiteHash::Sha256, &prk, &info, &mut okm);
    assert_eq!(
        &okm[..],
        &hex("b1 1e 39 8d c8 03 27 a1 c8 e7 f7 8c 59 6a 49 34
              4f 01 2e da 2d 4e fa d8 a0 50 cc 4c 19 af a9 7c
              59 04 5a 99 ca c7 82 72 71 cb 41 c6 5e 59 0e 09
              da 32 75 60 0c 2f 09 b8 36 77 93 a9 ac a3 db 71
              cc 30 c5 81 79 ec 3e 87 c1 4c 01 d5 c1 f3 43 4f
              1d 87")[..],
        "RFC 5869 A.2 OKM"
    );
}

/// RFC 5869 appendix A.1: 42-byte OKM with a short info string.
#[test]
fn hkdf_expand_matches_rfc5869_a1() {
    let ikm = [0x0bu8; 22];
    let salt: Vec<u8> = (0u8..=0x0c).collect();
    let info: Vec<u8> = (0xf0u8..=0xf9).collect();
    let prk = SuiteHash::Sha256.hmac(&salt, &ikm);
    assert_eq!(
        prk,
        hex("07 77 09 36 2c 2e 32 df 0d dc 3f 0d c4 7b ba 63
             90 b6 c7 3b b5 0f 9c 31 22 ec 84 4a d7 c2 b3 e5"),
        "RFC 5869 A.1 PRK"
    );
    let mut okm = [0u8; 42];
    hkdf_expand(SuiteHash::Sha256, &prk, &info, &mut okm);
    assert_eq!(
        &okm[..],
        &hex("3c b2 5f 25 fa ac d5 7a 90 43 4f 64 d0 36 2f 2a
              2d 2d 0a 90 cf 1a 5a 4c 5d b0 2d 56 ec c4 c5 bf
              34 00 72 08 d5 b8 87 18 58 65")[..],
        "RFC 5869 A.1 OKM"
    );
}

/// RFC 8448 §3 "Simple 1-RTT Handshake": every derivable step of the
/// client key schedule is compared against the published trace values.
#[test]
fn key_schedule_matches_rfc8448_simple_handshake() {
    let hash = SuiteHash::Sha256;
    let zero32 = [0u8; 32];

    // {server} extract secret "early"
    let early = hash.hmac(&zero32, &zero32);
    assert_eq!(
        early,
        hex("33 ad 0a 1c 60 7e c0 3b 09 e6 cd 98 93 68 0c e2
             10 ad f3 00 aa 1f 26 60 e1 b2 2e 10 f1 70 f9 2a"),
        "early_secret = HKDF-Extract(0, 0)"
    );

    // derive secret for handshake: "tls13 derived"
    let derived_hs = hash.derive_secret(&early, b"derived", &hash.hash(&[]));
    assert_eq!(
        derived_hs,
        hex("6f 26 15 a1 08 c7 02 c5 67 8f 54 fc 9d ba b6 97
             16 c0 76 18 9c 48 25 0c eb ea c3 57 6c 36 11 ba"),
        "Derive-Secret(early, \"derived\", Hash(\"\"))"
    );

    // extract secret "handshake" (IKM = ECDHE shared secret)
    let ecdhe = hex("8b d4 05 4f b5 5b 9d 63 fd fb ac f9 f0 4b 9f 0d
                     35 e6 d6 3f 53 75 63 ef d4 62 72 90 0f 89 49 2d");
    let hs_secret = hash.hmac(&derived_hs, &ecdhe);
    assert_eq!(
        hs_secret,
        hex("1d c8 26 e9 36 06 aa 6f dc 0a ad c1 2f 74 1b 01
             04 6a a6 b9 9f 69 1e d2 21 a9 f0 ca 04 3f be ac"),
        "handshake_secret = HKDF-Extract(derived, ECDHE)"
    );

    // Transcript-Hash(ClientHello..ServerHello)
    let transcript_ch_sh = hex("86 0c 06 ed c0 78 58 ee 8e 78 f0 e7 42 8c 58 ed
                                d6 b4 3f 2c a3 e6 e9 5f 02 ed 06 3c f0 e1 ca d8");
    let hs = HandshakeSecrets::new(SUITE_AES_128, &ecdhe, &transcript_ch_sh);
    assert_eq!(
        hs.client_hs_traffic,
        hex("b3 ed db 12 6e 06 7f 35 a7 80 b3 ab f4 5e 2d 8f
             3b 1a 95 07 38 f5 2e 96 00 74 6a 0e 27 a5 5a 21"),
        "client_handshake_traffic_secret"
    );
    assert_eq!(
        hs.server_hs_traffic,
        hex("b6 7b 7d 69 0c c1 6c 4e 75 e5 42 13 cb 2d 37 b4
             e9 c9 12 bc de d9 10 5d 42 be fd 59 d3 91 ad 38"),
        "server_handshake_traffic_secret"
    );

    // {server} write traffic keys for handshake data (AES-128-GCM)
    let mut key = [0u8; 16];
    hash.expand_label(&hs.server_hs_traffic, b"key", &[], &mut key);
    assert_eq!(
        &key[..],
        &hex("3f ce 51 60 09 c2 17 27 d0 f2 e4 e8 6e e4 03 bc")[..],
        "server handshake write key"
    );
    let (_, iv) =
        TrafficKey::derive(SUITE_AES_128, hash, &hs.server_hs_traffic).expect("traffic key");
    assert_eq!(
        &iv[..],
        &hex("5d 31 3e b2 67 12 76 ee 13 00 0b 30")[..],
        "server handshake write IV"
    );

    // {client} write traffic keys for handshake data
    let mut key = [0u8; 16];
    hash.expand_label(&hs.client_hs_traffic, b"key", &[], &mut key);
    assert_eq!(
        &key[..],
        &hex("db fa a6 93 d1 76 2c 5b 66 6a f5 d9 50 25 8d 01")[..],
        "client handshake write key"
    );
    let (_, iv) =
        TrafficKey::derive(SUITE_AES_128, hash, &hs.client_hs_traffic).expect("traffic key");
    assert_eq!(
        &iv[..],
        &hex("5b d3 c7 1b 83 6e 0b 76 bb 73 26 5f")[..],
        "client handshake write IV"
    );

    // "tls13 finished" expansion for both directions
    assert_eq!(
        hash.finished_key(&hs.server_hs_traffic),
        hex("00 8d 3b 66 f8 16 ea 55 9f 96 b5 37 e8 85 c3 1f
             c0 68 bf 49 2c 65 2f 01 f2 88 a1 d8 cd c1 9f c8"),
        "server finished key"
    );
    assert_eq!(
        hash.finished_key(&hs.client_hs_traffic),
        hex("b8 0a d0 10 15 fb 2f 0b d6 5f f7 d4 da 5d 6b f8
             3f 84 82 1d 1f 87 fd c7 d3 c7 5b 5a 7b 42 d9 c4"),
        "client finished key"
    );

    // Application traffic secrets (transcript through the server Finished).
    let transcript_fin = hex("96 08 10 2a 0f 1c cc 6d b6 25 0b 7b 7e 41 7b 1a
                              00 0e aa da 3d aa e4 77 7a 76 86 c9 ff 83 df 13");
    let app = hs.application(&transcript_fin);
    assert_eq!(
        app.client_app_traffic,
        hex("9e 40 64 6c e7 9a 7f 9d c0 5a f8 88 9b ce 65 52
             87 5a fa 0b 06 df 00 87 f7 92 eb b7 c1 75 04 a5"),
        "client_application_traffic_secret_0"
    );
    assert_eq!(
        app.server_app_traffic,
        hex("a1 1a f9 f0 55 31 f8 56 ad 47 11 6b 45 a9 50 32
             82 04 b4 f4 4b fb 6b 3a 4b 4f 1f 3f cb 63 16 43"),
        "server_application_traffic_secret_0"
    );

    // Application write keys/IVs.
    let mut key = [0u8; 16];
    hash.expand_label(&app.server_app_traffic, b"key", &[], &mut key);
    assert_eq!(
        &key[..],
        &hex("9f 02 28 3b 6c 9c 07 ef c2 6b b9 f2 ac 92 e3 56")[..],
        "server application write key"
    );
    let (_, iv) =
        TrafficKey::derive(SUITE_AES_128, hash, &app.server_app_traffic).expect("traffic key");
    assert_eq!(
        &iv[..],
        &hex("cf 78 2b 88 dd 83 54 9a ad f1 e9 84")[..],
        "server application write IV"
    );
    let mut key = [0u8; 16];
    hash.expand_label(&app.client_app_traffic, b"key", &[], &mut key);
    assert_eq!(
        &key[..],
        &hex("17 42 2d da 59 6e d5 d9 ac d8 90 e3 c6 3f 50 51")[..],
        "client application write key"
    );

    // Nonce/AAD handling: sealing with the derived key must round-trip,
    // and a different AAD must fail authentication (RFC 8446 §5.3).
    let (tk, iv) =
        TrafficKey::derive(SUITE_AES_128, hash, &app.client_app_traffic).expect("traffic key");
    let sealed = tk.seal(&iv, b"aad", b"payload").expect("seal");
    assert_eq!(tk.open(&iv, b"aad", &sealed).expect("open"), b"payload");
    assert!(tk.open(&iv, b"not-aad", &sealed).is_err());
}

// -- records -----------------------------------------------------------------------

fn protector(secret: &[u8]) -> RecordProtector {
    let (key, iv) =
        TrafficKey::derive(SUITE_AES_128, SuiteHash::Sha256, secret).expect("traffic key");
    RecordProtector::new(key, iv)
}

#[test]
fn records_round_trip_each_content_type() {
    // One protector per direction: the sequence numbers are independent.
    let mut sender = protector(b"secret");
    let mut receiver = protector(b"secret");
    for (ty, payload) in [
        (CONTENT_HANDSHAKE, &b"\x14\x00\x00\x20finished"[..]),
        (CONTENT_APPLICATION_DATA, &b"GET / HTTP/1.1\r\n"[..]),
        (CONTENT_ALERT, &[ALERT_WARNING, 0][..]),
    ] {
        let record = sender.seal(ty, payload).expect("seal");
        let (hdr_ty, len) = parse_record_header(&record).expect("header");
        assert_eq!(hdr_ty, CONTENT_APPLICATION_DATA, "outer type is opaque");
        assert_eq!(len, record.len() - 5);
        let (got_ty, got) = receiver.open(&record[5..]).expect("open");
        assert_eq!(got_ty, ty);
        assert_eq!(got, payload);
    }
}

#[test]
fn sequence_numbers_advance_and_bind_the_nonce() {
    let mut a = protector(b"secret");
    let mut b = protector(b"secret");
    let r0 = a.seal(CONTENT_APPLICATION_DATA, b"one").expect("seal");
    let r1 = a.seal(CONTENT_APPLICATION_DATA, b"one").expect("seal");
    assert_ne!(r0[5..], r1[5..], "same plaintext, different nonce");
    assert_eq!(b.open(&r0[5..]).expect("open").1, b"one");
    assert_eq!(b.open(&r1[5..]).expect("open").1, b"one");
    // Replaying a record (wrong sequence number) must fail authentication.
    assert!(b.open(&r0[5..]).is_err());
}

#[test]
fn tampering_is_rejected() {
    let mut p = protector(b"secret");
    let mut record = p.seal(CONTENT_APPLICATION_DATA, b"payload").expect("seal");
    let last = record.len() - 1;
    record[last] ^= 0x01;
    let mut q = protector(b"secret");
    assert!(q.open(&record[5..]).is_err());
}

#[test]
fn rekey_resets_sequence() {
    let mut p = protector(b"secret");
    let first = p.seal(CONTENT_APPLICATION_DATA, b"x").expect("seal");
    let (key, iv) =
        TrafficKey::derive(SUITE_AES_128, SuiteHash::Sha256, b"other-secret").expect("traffic key");
    p.rekey(key, iv);
    let after = p.seal(CONTENT_APPLICATION_DATA, b"x").expect("seal");
    assert_ne!(first[5..], after[5..]);
}

#[test]
fn plaintext_records_are_well_formed() {
    let rec = plaintext_record(CONTENT_HANDSHAKE, b"abc");
    assert_eq!(rec[0], CONTENT_HANDSHAKE);
    assert_eq!(&rec[1..3], &[0x03, 0x03]);
    assert_eq!(u16::from_be_bytes([rec[3], rec[4]]), 3);
    assert_eq!(&rec[5..], b"abc");
    assert!(parse_record_header(&rec).is_ok());
    // Oversized declared length is rejected before allocation.
    let bad = [CONTENT_APPLICATION_DATA, 0x03, 0x03, 0xff, 0xff];
    assert!(parse_record_header(&bad).is_err());
    // A TLS 1.2 version is not accepted by a 1.3-only client.
    let old = [CONTENT_HANDSHAKE, 0x03, 0x01, 0x00, 0x04];
    assert!(parse_record_header(&old).is_ok(), "0x0301 is tolerated on read");
    let future = [CONTENT_HANDSHAKE, 0x03, 0x07, 0x00, 0x04];
    assert!(parse_record_header(&future).is_err());
}

#[test]
fn the_other_suites_seal_and_open() {
    for suite in [0x1302u16, 0x1303] {
        let hash = SuiteHash::for_suite(suite);
        let (key, iv) = TrafficKey::derive(suite, hash, b"secret").expect("traffic key");
        let sealed = key.seal(&iv, b"a", b"text").expect("seal");
        assert_eq!(key.open(&iv, b"a", &sealed).expect("open"), b"text");
        assert_eq!(sealed.len(), 4 + 16);
    }
    assert!(TrafficKey::derive(0x1399, SuiteHash::Sha256, b"s").is_err());
}

// -- the ClientHello ---------------------------------------------------------------

type Outside = courierust::courierust_fingerprint::TlsProfile;

fn spec<'a>(
    fingerprint: Fingerprint,
    random: &'a [u8; 32],
    alpn: &'a [String],
) -> ClientHelloSpec<'a> {
    ClientHelloSpec {
        server_name: "example.com",
        alpn,
        fingerprint,
        random,
        session_id: [0u8; 32],
        key_share: &[0x11; 32],
    }
}

/// Parse our own `ClientHello` back into a profile so the JA3/JA4
/// builders can be run over what actually went on the wire.
fn profile_from_bytes(raw: &[u8], protocol: char) -> Outside {
    let (ty, body, _) = read_hs_message(raw).expect("handshake frame");
    assert_eq!(ty, HS_CLIENT_HELLO);
    let mut p = Outside {
        protocol,
        tls_version: u16::from_be_bytes([body[0], body[1]]),
        ..Default::default()
    };
    let mut i = 34usize;
    let sid_len = body[i] as usize;
    i += 1 + sid_len;
    let cipher_len = u16::from_be_bytes([body[i], body[i + 1]]) as usize;
    i += 2;
    for c in body[i..i + cipher_len].chunks(2) {
        p.ciphers.push(u16::from_be_bytes([c[0], c[1]]));
    }
    i += cipher_len;
    i += 1 + body[i] as usize; // compression methods
    let exts = parse_extensions(body, &mut i).expect("extensions");
    for (t, d) in exts {
        p.extensions.push(t);
        match t {
            EXT_SERVER_NAME => p.has_sni = true,
            EXT_SUPPORTED_GROUPS => {
                let mut q = 2usize;
                while q + 2 <= d.len() {
                    p.groups.push(u16::from_be_bytes([d[q], d[q + 1]]));
                    q += 2;
                }
            }
            EXT_SIGNATURE_ALGORITHMS => {
                let mut q = 2usize;
                while q + 2 <= d.len() {
                    p.signature_algorithms.push(u16::from_be_bytes([d[q], d[q + 1]]));
                    q += 2;
                }
            }
            EXT_EC_POINT_FORMATS => {
                let n = d[0] as usize;
                p.point_formats.extend_from_slice(&d[1..1 + n]);
            }
            EXT_SUPPORTED_VERSIONS => {
                let n = d[0] as usize;
                let mut q = 1usize;
                while q + 2 <= 1 + n {
                    p.supported_versions.push(u16::from_be_bytes([d[q], d[q + 1]]));
                    q += 2;
                }
            }
            EXT_ALPN => {
                let mut q = 2usize;
                while q < d.len() {
                    let len = d[q] as usize;
                    q += 1;
                    p.alpn.push(String::from_utf8_lossy(&d[q..q + len]).into_owned());
                    q += len;
                }
            }
            _ => {}
        }
    }
    p
}

/// The library's own profile as the one that the fingerprint functions take.
fn outside(p: &TlsProfile) -> Outside {
    Outside {
        protocol: p.protocol,
        tls_version: p.tls_version,
        supported_versions: p.supported_versions.clone(),
        has_sni: p.has_sni,
        ciphers: p.ciphers.clone(),
        extensions: p.extensions.clone(),
        signature_algorithms: p.signature_algorithms.clone(),
        groups: p.groups.clone(),
        point_formats: p.point_formats.clone(),
        alpn: p.alpn.clone(),
        ..Default::default()
    }
}

fn is_grease_val(v: u16) -> bool {
    v & 0x000f == 0x000a && (v >> 8) == (v & 0x00ff)
}

/// GREASE (RFC 8701) values are per-connection and are filtered out of
/// JA3/JA4; comparisons of the *shape* must do the same.
fn without_grease(values: &[u16]) -> Vec<u16> {
    values.iter().copied().filter(|v| !is_grease_val(*v)).collect()
}

/// The Chrome profile is emitted faithfully: cipher list, extension set
/// (minus the documented omissions), groups, signature algorithms and
/// ALPN are exactly the profile's.
#[test]
fn chrome_shape_matches_profile_minus_omissions() {
    let alpn = vec!["h2".to_string(), "http/1.1".to_string()];
    let random = [0x5au8; 32];
    let hello = build_client_hello(&spec(Fingerprint::Chrome, &random, &alpn)).expect("built");
    let emitted = profile_from_bytes(&hello.raw, 't');

    let expected_profile = outside(&TlsProfile::chrome());
    assert_eq!(
        ja3_string(&expected_profile),
        ja3_string(&courierust::courierust_fingerprint::chrome_tls_profile())
    );
    // Expected: profile minus the documented omissions.
    let mut expected = expected_profile.clone();
    expected.extensions.retain(|t| !KNOWN_OMISSIONS.iter().any(|(o, _)| o == t));

    let mut emitted_sorted = emitted.clone();
    emitted_sorted.extensions = without_grease(&emitted_sorted.extensions);
    emitted_sorted.extensions.sort_unstable();
    let mut expected_sorted = expected.clone();
    expected_sorted.extensions.sort_unstable();
    assert_eq!(
        emitted_sorted.extensions, expected_sorted.extensions,
        "extension set must match the profile minus documented omissions"
    );
    assert_eq!(without_grease(&emitted.ciphers), expected.ciphers, "cipher suite list");
    assert_eq!(without_grease(&emitted.groups), expected.groups, "supported groups");
    assert_eq!(
        without_grease(&emitted.supported_versions),
        expected.supported_versions,
        "supported versions"
    );
    assert_eq!(
        emitted.signature_algorithms, expected.signature_algorithms,
        "signature algorithms"
    );
    assert_eq!(emitted.alpn, expected.alpn, "ALPN");
    assert_eq!(emitted.point_formats, expected.point_formats);

    // GREASE (RFC 8701) is on the wire in the cipher list, the extension
    // list and the group list, and the reported omissions are exactly the
    // documented ones.
    assert!(emitted.ciphers.iter().any(|c| is_grease_val(*c)));
    assert!(emitted.extensions.iter().any(|e| is_grease_val(*e)));
    assert!(emitted.groups.iter().any(|g| is_grease_val(*g)));
    assert_eq!(hello.omitted_extensions.len(), KNOWN_OMISSIONS.len());

    // Fingerprints: JA4 ignores GREASE, JA3 keeps it, so the emitted
    // hello is compared after filtering GREASE out (which is what a
    // capture-based JA3 would report for a browser that sends GREASE).
    let mut emitted_no_grease = emitted.clone();
    emitted_no_grease.ciphers = without_grease(&emitted_no_grease.ciphers);
    emitted_no_grease.groups = without_grease(&emitted_no_grease.groups);
    emitted_no_grease.extensions = without_grease(&emitted_no_grease.extensions);
    emitted_no_grease.supported_versions = without_grease(&emitted_no_grease.supported_versions);
    assert_eq!(
        ja3_string(&emitted_no_grease),
        ja3_string(&expected),
        "JA3 string (GREASE filtered)"
    );
    assert_eq!(
        ja3_hash(&emitted_no_grease),
        ja3_hash(&expected),
        "JA3 hash (GREASE filtered)"
    );
    assert_eq!(ja4(&emitted_no_grease), ja4(&expected), "JA4");
    // On the wire the GREASE values are present, exactly as a real Chrome
    // hello carries them.
    assert_ne!(ja3_string(&emitted), ja3_string(&expected));
}

/// The session id sits at the fixed offset REALITY rewrites.
#[test]
fn session_id_offset_is_fixed() {
    let alpn = vec!["h2".to_string()];
    let mut session_id = [0u8; 32];
    session_id[0] = 0xAB;
    let mut s = spec(Fingerprint::Chrome, &[0x11; 32], &alpn);
    s.session_id = session_id;
    let hello = build_client_hello(&s).expect("built");
    assert_eq!(hello.session_id_offset, SESSION_ID_OFFSET);
    assert_eq!(&hello.raw[SESSION_ID_OFFSET..SESSION_ID_OFFSET + 32], &session_id[..]);
    // The handshake header advertises the true body length.
    let declared =
        ((hello.raw[1] as usize) << 16) | ((hello.raw[2] as usize) << 8) | hello.raw[3] as usize;
    assert_eq!(declared + 4, hello.raw.len());
}

/// Padding brings Chrome-shaped messages to a 512-byte boundary; the
/// message stays within the record limit and parses end to end.
#[test]
fn chrome_padding_is_bounded_and_parsable() {
    for seed in 0u8..16 {
        let alpn = vec!["h2".to_string(), "http/1.1".to_string()];
        let random = [seed; 32];
        let hello = build_client_hello(&spec(Fingerprint::Chrome, &random, &alpn)).expect("built");
        assert!(hello.raw.len() <= 2 * 16384, "fits in two records");
        // A full parse walks every extension and rejects malformed ones.
        let emitted = profile_from_bytes(&hello.raw, 't');
        assert!(
            emitted.extensions.contains(&EXT_PADDING),
            "browser-shaped messages carry the padding extension"
        );
        assert_eq!(hello.raw.len() % 512, 0, "a padded message ends on a 512-byte boundary");
    }
}

/// `Randomized` varies per connection but stays parseable and keeps the
/// same *set* of extensions (GREASE excluded) as Chrome minus omissions.
#[test]
fn randomized_varies_shape_but_keeps_the_set() {
    let alpn = vec!["h2".to_string()];
    let mut reference: Option<Vec<u16>> = None;
    let mut non_sorted_orders = 0usize;
    for seed in 0u8..8 {
        let hello = build_client_hello(&spec(Fingerprint::Randomized, &[seed; 32], &alpn))
            .expect("built");
        let emitted = profile_from_bytes(&hello.raw, 't');
        let order = without_grease(&emitted.extensions);
        let mut sorted = order.clone();
        sorted.sort_unstable();
        match &reference {
            Some(prev) => assert_eq!(*prev, sorted, "the extension set stays constant"),
            None => reference = Some(sorted.clone()),
        }
        if order != sorted {
            non_sorted_orders += 1;
        }
    }
    assert!(
        non_sorted_orders > 0,
        "at least one connection presents a non-sorted extension order"
    );
}

/// `Off` is a valid minimal handshake: no GREASE, X25519 only, TLS 1.3.
#[test]
fn off_profile_is_minimal_and_valid() {
    let alpn = vec!["h2".to_string()];
    let hello = build_client_hello(&spec(Fingerprint::Off, &[0x22; 32], &alpn)).expect("built");
    let emitted = profile_from_bytes(&hello.raw, 't');
    assert!(!emitted.ciphers.iter().any(|c| is_grease_val(*c)));
    assert_eq!(emitted.groups, vec![GROUP_X25519]);
    assert_eq!(emitted.supported_versions, vec![0x0304]);
    assert_eq!(emitted.extensions[0], EXT_SERVER_NAME);
    assert!(hello.omitted_extensions.is_empty());
}

/// Unshipped browser names are rejected instead of being silently
/// replaced by a different shape.
#[test]
fn unshipped_fingerprint_names_are_rejected() {
    for name in ["firefox", "safari", "ios", "edge", "android"] {
        let err = Fingerprint::parse(name).unwrap_err();
        assert!(err.message().contains(name), "error names the profile");
    }
    assert!(matches!(Fingerprint::parse("chrome").unwrap(), Fingerprint::Chrome));
    assert!(matches!(Fingerprint::parse("").unwrap(), Fingerprint::Off));
}

/// A custom profile gets exactly its declared shape for the extensions we
/// can construct, and unknown ones are reported, never guessed.
#[test]
fn custom_profile_reports_unknown_extensions() {
    let alpn = vec!["h2".to_string()];
    let mut profile = TlsProfile::chrome();
    profile.extensions.push(0x1234); // not a constructible extension
    let hello = build_client_hello(&spec(Fingerprint::Custom(profile), &[0x33; 32], &alpn))
        .expect("built");
    assert!(hello.omitted_extensions.iter().any(|(t, _)| *t == 0x1234));
    let emitted = profile_from_bytes(&hello.raw, 't');
    assert!(!emitted.extensions.contains(&0x1234));
}

// -- certificates --------------------------------------------------------------------

fn tlv(tag: u8, content: &[u8]) -> Vec<u8> {
    let mut out = vec![tag];
    if content.len() < 0x80 {
        out.push(content.len() as u8);
    } else {
        out.push(0x82);
        out.extend_from_slice(&(content.len() as u16).to_be_bytes());
    }
    out.extend_from_slice(content);
    out
}

fn cat(parts: &[Vec<u8>]) -> Vec<u8> {
    parts.concat()
}

const OID_EC: [u8; 7] = [0x2a, 0x86, 0x48, 0xce, 0x3d, 0x02, 0x01];
const OID_P256: [u8; 8] = [0x2a, 0x86, 0x48, 0xce, 0x3d, 0x03, 0x01, 0x07];
const OID_ECDSA_SHA256: [u8; 8] = [0x2a, 0x86, 0x48, 0xce, 0x3d, 0x04, 0x03, 0x02];

/// A certificate for `localhost` that names itself as its issuer, with the given time.
fn certificate_with(not_before: &[u8], key: &[u8]) -> Vec<u8> {
    certificate_of(not_before, key, &[])
}

fn certificate_of(not_before: &[u8], key: &[u8], more: &[u8]) -> Vec<u8> {
    let alg = tlv(0x30, &tlv(0x06, &OID_ECDSA_SHA256));
    let name = tlv(
        0x30,
        &tlv(0x31, &tlv(0x30, &cat(&[tlv(0x06, &[0x55, 4, 3]), tlv(0x0c, b"localhost")]))),
    );
    let validity =
        tlv(0x30, &cat(&[tlv(0x17, not_before), tlv(0x17, b"491231235959Z")]));
    let spki_alg = tlv(0x30, &cat(&[tlv(0x06, &OID_EC), tlv(0x06, &OID_P256)]));
    let spki = tlv(0x30, &cat(&[spki_alg, tlv(0x03, &cat(&[vec![0], key.to_vec()]))]));
    let san = tlv(0x30, &tlv(0x82, b"localhost"));
    let ext = tlv(0x30, &cat(&[tlv(0x06, &[0x55, 0x1d, 0x11]), tlv(0x04, &san)]));
    let tbs = tlv(
        0x30,
        &cat(&[
            tlv(0xa0, &tlv(0x02, &[2])),
            tlv(0x02, &[1]),
            alg.clone(),
            name.clone(),
            validity,
            name,
            spki,
            tlv(0xa3, &tlv(0x30, &cat(&[ext, more.to_vec()]))),
        ]),
    );
    tlv(0x30, &cat(&[tbs, alg, tlv(0x03, &[0, 0x30, 0])]))
}

/// That certificate with one more extension.
fn extended(oid: &[u8], value: &[u8]) -> Vec<u8> {
    let ext = tlv(0x30, &cat(&[tlv(0x06, oid), tlv(0x04, value)]));
    certificate_of(b"200101000000Z", &p256_public(), &ext)
}

/// The key pair of RFC 6979 A.2.5.
fn p256_private() -> Vec<u8> {
    hex("C9AFA9D845BA75166B5C215767B1D6934E50C3DB36E89B127B8A622B120F6721")
}

fn p256_public() -> Vec<u8> {
    cat(&[
        vec![4],
        hex("60FED4BA255A9D31C961EB74C6356D68C049B8923B61FA6CE669622E60F29FB6"),
        hex("7903FE1008B8BC99A41AE9E95628BC64F2F1B20C2D7E9F5177A3C294D4462299"),
    ])
}

fn certificate() -> Vec<u8> {
    certificate_with(b"200101000000Z", &p256_public())
}

fn identity() -> Identity {
    let sec1 = tlv(0x30, &cat(&[tlv(0x02, &[1]), tlv(0x04, &p256_private())]));
    let alg = tlv(0x30, &cat(&[tlv(0x06, &OID_EC), tlv(0x06, &OID_P256)]));
    let pkcs8 = tlv(0x30, &cat(&[tlv(0x02, &[0]), alg, tlv(0x04, &sec1)]));
    Identity::from_der(vec![certificate()], pkcs8).expect("identity")
}

#[test]
fn certificates_are_read_where_they_can_be() {
    let leaf = read_leaf(&certificate()).expect("a certificate");
    assert_eq!(leaf.key, p256_public());
    assert_eq!(leaf.dns_names, vec!["localhost".to_string()]);
    assert!(is_readable(&certificate()));

    // A character across the place where the month is cut.
    let odd = certificate_with("2é101000000Z".as_bytes(), &p256_public());
    assert!(!is_readable(&odd));
    assert_eq!(read_leaf(&odd).unwrap_err(), "certificate is not readable");

    // A length that goes beyond the address space.
    let beyond = [0x30, 0x88, 0xff, 0xff, 0xff, 0xff, 0xff, 0xff, 0xff, 0xff];
    assert!(!is_readable(&beyond));
    assert!(read_leaf(&beyond).is_err());
    let nested = tlv(0x30, &tlv(0x30, &beyond));
    assert!(!is_readable(&nested));

    // Where the parser does not look, anything may stand.
    let hidden = [4, 0x88, 0xff, 0xff, 0xff, 0xff, 0xff, 0xff, 0xff, 0xff];
    let unknown = extended(&[0x55, 0x1d, 0x7f], &hidden);
    assert!(is_readable(&unknown) && is_checkable(&unknown));
    assert_eq!(read_leaf(&unknown).expect("a certificate").key, p256_public());
    let named = extended(&[0x55, 0x1d, 0x11], &hidden);
    assert!(!is_readable(&named));
    assert!(check_chain(&root_with(&unknown), &[unknown.clone()], NOW).is_ok());
    // A root that cannot be read does not stand in the way of another one.
    let mut roots = root_with(&odd);
    assert!(check_chain(&roots, &[unknown.clone()], NOW).is_err());
    roots.add_der(unknown.clone());
    roots.add_der(beyond.to_vec());
    assert!(!is_anchorable(&odd) && !is_anchorable(&beyond));
    assert!(check_chain(&roots, &[unknown.clone()], NOW).is_ok());
    assert!(check_chain(&roots, &[odd.clone()], NOW).is_err());

    // What is merely broken is for the parser to refuse.
    assert!(is_readable(&[0x30, 5, 1]));
    assert!(read_leaf(&[0x30, 5, 1]).is_err());
    assert!(read_leaf(&[]).is_err());
}

// -- handshakes -----------------------------------------------------------------------

/// The client between records.
enum Stage<A> {
    Opening(Opening, A),
    Flight(Flight, A),
    Open(Tls13Stream),
    Failed(Tls13Error),
    Taken,
}

/// A client and a server that talk through memory. The server reads: where nothing is there
/// for it, the client goes on with what the server has written.
struct Wire<A> {
    to_server: VecDeque<u8>,
    to_client: Vec<u8>,
    stage: Stage<A>,
}

impl<A: ServerAuth> Wire<A> {
    fn record(&mut self) -> Option<(u8, Vec<u8>)> {
        if self.to_client.len() < 5 {
            return None;
        }
        let (ty, len) = parse_record_header(&self.to_client).expect("header");
        if self.to_client.len() < 5 + len {
            return None;
        }
        let body = self.to_client[5..5 + len].to_vec();
        self.to_client.drain(..5 + len);
        Some((ty, body))
    }

    fn advance(&mut self) {
        loop {
            if let Stage::Open(_) | Stage::Failed(_) = self.stage {
                return;
            }
            let Some((ty, body)) = self.record() else {
                return;
            };
            self.stage = match std::mem::replace(&mut self.stage, Stage::Taken) {
                Stage::Opening(opening, auth) => match opening.on_record(ty, &body) {
                    Err(e) => Stage::Failed(e),
                    Ok(None) => Stage::Opening(opening, auth),
                    Ok(Some(msg)) => match opening.on_server_hello(&msg) {
                        Err(e) => Stage::Failed(e),
                        Ok(flight) => Stage::Flight(flight, auth),
                    },
                },
                Stage::Flight(mut flight, mut auth) => {
                    match flight.on_record(ty, &body, &mut auth) {
                        Err(e) => Stage::Failed(e),
                        Ok(()) if !flight.is_finished() => Stage::Flight(flight, auth),
                        Ok(()) => match flight.complete("localhost".to_string()) {
                            Err(e) => Stage::Failed(e),
                            Ok((bytes, stream)) => {
                                self.to_server.extend(bytes);
                                Stage::Open(stream)
                            }
                        },
                    }
                }
                other => other,
            };
        }
    }
}

struct Link<A>(Rc<RefCell<Wire<A>>>);

impl<A: ServerAuth> CRead for Link<A> {
    fn read(&mut self, buf: &mut [u8]) -> courierust::courierust_error::Result<usize> {
        let mut wire = self.0.borrow_mut();
        if wire.to_server.is_empty() {
            wire.advance();
        }
        let n = buf.len().min(wire.to_server.len());
        for slot in buf.iter_mut().take(n) {
            *slot = wire.to_server.pop_front().expect("a byte");
        }
        Ok(n)
    }
}

impl<A: ServerAuth> CWrite for Link<A> {
    fn write(&mut self, buf: &[u8]) -> courierust::courierust_error::Result<usize> {
        self.0.borrow_mut().to_client.extend_from_slice(buf);
        Ok(buf.len())
    }

    fn flush(&mut self) -> courierust::courierust_error::Result<()> {
        Ok(())
    }
}

fn acceptor() -> TlsAcceptor {
    TlsAcceptor::new(ServerConfig {
        identity: identity(),
        alpn: vec![b"h2".to_vec(), b"http/1.1".to_vec()],
        min_version: TlsVersion::Tls13,
        max_version: TlsVersion::Tls13,
        ..Default::default()
    })
}

fn root_with(cert: &[u8]) -> RootStore {
    let mut roots = RootStore::new();
    roots.add_der(cert.to_vec());
    roots
}

const NOW: i64 = 1_800_000_000;

fn config(fingerprint: Fingerprint, server_name: &str) -> Tls13ClientConfig {
    Tls13ClientConfig {
        server_name: server_name.to_string(),
        alpn: vec!["h2".to_string(), "http/1.1".to_string()],
        fingerprint,
        now: NOW,
        roots: None,
        verify: true,
        compatibility_ccs: true,
    }
}

/// Start a connection: the shared wire with the first flight on its way to the server.
fn started<A: ServerAuth>(config: &Tls13ClientConfig, auth: A) -> Rc<RefCell<Wire<A>>> {
    let draft = begin(config).expect("ClientHello");
    let (opening, bytes) = Opening::new(config, draft);
    Rc::new(RefCell::new(Wire {
        to_server: bytes.into_iter().collect(),
        to_client: Vec::new(),
        stage: Stage::Opening(opening, auth),
    }))
}

/// Echo one message over an established connection and close it.
fn echo<A: ServerAuth>(wire: Rc<RefCell<Wire<A>>>, label: &str) {
    let mut server = acceptor()
        .accept(Link(wire.clone()), Link(wire.clone()))
        .unwrap_or_else(|e| panic!("[{label}] server handshake failed: {e}"));
    let stage = std::mem::replace(&mut wire.borrow_mut().stage, Stage::Taken);
    let mut client = match stage {
        Stage::Open(stream) => stream,
        Stage::Failed(e) => panic!("[{label}] client handshake failed: {e:?}"),
        _ => panic!("[{label}] the handshake is not complete"),
    };
    assert!(matches!(client.suite(), 0x1301..=0x1303), "[{label}] negotiated a TLS 1.3 suite");
    assert_eq!(client.negotiated_alpn(), Some(&b"h2"[..]), "[{label}] ALPN");
    assert_eq!(client.peer_certificate_der(), Some(&certificate()[..]), "[{label}] leaf cert");
    assert_eq!(client.server_name(), "localhost");

    let bytes = client.write(b"ping").expect("client write");
    wire.borrow_mut().to_server.extend(bytes);
    let mut buf = [0u8; 64];
    let n = CRead::read(&mut server, &mut buf).expect("server read");
    assert_eq!(&buf[..n], b"ping");
    CWrite::write_all(&mut server, &buf[..n]).expect("server write");
    let bytes = std::mem::take(&mut wire.borrow_mut().to_client);
    assert!(client.received(&bytes).expect("bytes"));
    assert_eq!(client.fill_plaintext().expect("data"), Fill::Data);
    assert_eq!(client.take_plaintext(64), b"ping", "[{label}] echo");
    assert_eq!(client.fill_plaintext().expect("nothing"), Fill::NeedMore);

    // New keys on the client's side, and data under them.
    let mut bytes = client.key_update(false).expect("key update");
    bytes.extend(client.write(b"again").expect("client write"));
    wire.borrow_mut().to_server.extend(bytes);
    let n = CRead::read(&mut server, &mut buf).expect("server read");
    assert_eq!(&buf[..n], b"again", "[{label}] after a key update");

    assert!(client.close_notify().expect("close_notify").is_some());
    assert!(client.close_notify().expect("close_notify").is_none());
    assert!(matches!(client.write(b"x"), Err(Tls13Error::Closed)));

    // What stands behind the peer's close is never read.
    CWrite::write_all(&mut server, b"late").expect("server write");
    let late = std::mem::take(&mut wire.borrow_mut().to_client);
    let mut bytes = vec![21, 3, 3, 0, 2, 1, 0];
    bytes.extend(late);
    assert!(client.received(&bytes).expect("bytes"));
    assert_eq!(client.fill_plaintext().expect("closed"), Fill::Closed);
    assert_eq!(client.fill_plaintext().expect("closed"), Fill::Closed);
    assert!(client.take_plaintext(64).is_empty());
}

/// Full handshake against a real TLS 1.3 peer (courierust's server) with chain
/// validation on, for Chrome-shaped, shuffled and minimal `ClientHello`s.
#[test]
fn handshake_roundtrips_all_combinations() {
    for (fingerprint, label) in [
        (Fingerprint::Chrome, "ec/chrome"),
        (Fingerprint::Off, "ec/off"),
        (Fingerprint::Randomized, "ec/randomized"),
    ] {
        let config = config(fingerprint, "localhost");
        let auth =
            X509ServerAuth::new(root_with(&certificate()), "localhost".to_string(), NOW, true);
        echo(started(&config, auth), label);
    }
}

/// Run a handshake that the client must refuse, and return its reason.
fn refused<A: ServerAuth>(wire: Rc<RefCell<Wire<A>>>) -> Tls13Error {
    let _ = acceptor().accept(Link(wire.clone()), Link(wire.clone()));
    let stage = std::mem::replace(&mut wire.borrow_mut().stage, Stage::Taken);
    match stage {
        Stage::Failed(e) => e,
        _ => panic!("expected a refusal"),
    }
}

/// A server certificate that does not match the requested name is
/// rejected by the default authentication.
#[test]
fn wrong_server_name_is_rejected() {
    let config = config(Fingerprint::Off, "not-in-the-cert.test");
    let auth = X509ServerAuth::new(
        root_with(&certificate()),
        "not-in-the-cert.test".to_string(),
        NOW,
        true,
    );
    match refused(started(&config, auth)) {
        Tls13Error::Certificate(m) => {
            assert!(m.contains("does not match"), "unexpected certificate error: {m}")
        }
        e => panic!("expected a hostname mismatch, got {e:?}"),
    }
}

#[test]
fn an_unknown_root_and_an_expired_chain_are_rejected() {
    let none = X509ServerAuth::new(RootStore::new(), "localhost".to_string(), NOW, true);
    let config = config(Fingerprint::Off, "localhost");
    assert!(matches!(refused(started(&config, none)), Tls13Error::Certificate(_)));
    let late = X509ServerAuth::new(
        root_with(&certificate()),
        "localhost".to_string(),
        9_000_000_000,
        true,
    );
    assert!(matches!(refused(started(&config, late)), Tls13Error::Certificate(_)));
    let unchecked = X509ServerAuth::new(RootStore::new(), "x".to_string(), 0, false);
    echo(started(&config, unchecked), "unchecked");
}

/// A custom `ServerAuth` replaces the x509 path, and the transcript still
/// verifies (this is the hook REALITY builds on).
#[test]
fn custom_server_auth_is_used() {
    struct AcceptAny(Rc<RefCell<u32>>);
    impl ServerAuth for AcceptAny {
        fn verify_certificate(
            &mut self,
            leaf_der: &[u8],
            _leaf: &LeafCertificate,
            _chain: &[Vec<u8>],
        ) -> TlsResult<()> {
            assert!(!leaf_der.is_empty());
            *self.0.borrow_mut() += 1;
            Ok(())
        }
    }

    let called = Rc::new(RefCell::new(0u32));
    let config = config(Fingerprint::Chrome, "localhost");
    echo(started(&config, AcceptAny(called.clone())), "custom");
    assert_eq!(*called.borrow(), 1);
}

#[test]
fn a_connection_needs_a_server_name() {
    assert!(matches!(
        begin(&Tls13ClientConfig::default()),
        Err(Tls13Error::InvalidConfig(_))
    ));
    let draft = assemble(&config(Fingerprint::Off, "a.test"), [1; 32], [2; 32]).expect("hello");
    assert_eq!(&draft.raw[6..38], &[1u8; 32]);
    assert_eq!(draft.session_id_offset, SESSION_ID_OFFSET);
    assert_eq!(
        draft.key_share_public,
        courierust::courierust_tls::crypto::x25519::x25519(
            &[2; 32],
            &corduit::crypto::BASE_POINT
        )
    );
}

/// The base point of the curve, the public key whose private scalar is one.
const BASE_POINT: [u8; 32] = [
    0x58, 0x66, 0x66, 0x66, 0x66, 0x66, 0x66, 0x66, 0x66, 0x66, 0x66, 0x66, 0x66, 0x66, 0x66, 0x66,
    0x66, 0x66, 0x66, 0x66, 0x66, 0x66, 0x66, 0x66, 0x66, 0x66, 0x66, 0x66, 0x66, 0x66, 0x66, 0x66,
];

/// The order of the base point, lowest limb first.
const ORDER: [u64; 4] =
    [0x5812_631a_5cf5_d3ed, 0x14de_f9de_a2f7_9cd6, 0, 0x1000_0000_0000_0000];

/// Twice `n` and a bit, less the order where that goes.
fn doubled(n: [u64; 4], bit: u64) -> [u64; 4] {
    let mut out = [0u64; 4];
    let mut carry = bit;
    for i in 0..4 {
        out[i] = n[i] << 1 | carry;
        carry = n[i] >> 63;
    }
    let less = (0..4).rev().find(|&i| out[i] != ORDER[i]).is_some_and(|i| out[i] < ORDER[i]);
    if less {
        return out;
    }
    let mut borrow = false;
    for i in 0..4 {
        let (d, a) = out[i].overflowing_sub(ORDER[i]);
        let (d, b) = d.overflowing_sub(borrow as u64);
        out[i] = d;
        borrow = a || b;
    }
    out
}

/// An Ed25519 signature under the key whose private scalar is one, with a nonce of one.
fn signed(message: &[u8]) -> Vec<u8> {
    let mut hasher = Sha512::new();
    hasher.update(&BASE_POINT);
    hasher.update(&BASE_POINT);
    hasher.update(message);
    let digest = hasher.finalize();
    let mut n = [0u64; 4];
    for byte in digest.iter().rev() {
        for shift in (0..8).rev() {
            n = doubled(n, (byte >> shift & 1) as u64);
        }
    }
    // One more; the lowest limb of the order is far from the last value.
    let mut carry = 1u64;
    for limb in n.iter_mut() {
        let (sum, over) = limb.overflowing_add(carry);
        *limb = sum;
        carry = over as u64;
    }
    let mut out = BASE_POINT.to_vec();
    for limb in n {
        out.extend_from_slice(&limb.to_le_bytes());
    }
    out
}

/// A certificate for that key.
fn ed25519_certificate() -> Vec<u8> {
    let alg = tlv(0x30, &tlv(0x06, &[0x2b, 0x65, 0x70]));
    let name = tlv(0x30, &[]);
    let validity =
        tlv(0x30, &cat(&[tlv(0x17, b"200101000000Z"), tlv(0x17, b"491231235959Z")]));
    let key = tlv(0x30, &cat(&[alg.clone(), tlv(0x03, &cat(&[vec![0], BASE_POINT.to_vec()]))]));
    let tbs = tlv(
        0x30,
        &cat(&[tlv(0xa0, &tlv(2, &[2])), tlv(2, &[1]), alg.clone(), name.clone(), validity, name, key]),
    );
    tlv(0x30, &cat(&[tbs, alg, tlv(0x03, &[7; 65])]))
}

/// A client that has taken a `ServerHello`.
fn in_flight() -> Flight {
    let config = config(Fingerprint::Off, "localhost");
    let draft = assemble(&config, [3; 32], [4; 32]).expect("ClientHello");
    let (opening, _) = Opening::new(&config, draft);
    let mut body = vec![3, 3];
    body.extend_from_slice(&[0x55; 32]);
    body.push(32);
    body.extend_from_slice(&[0; 32]);
    body.extend_from_slice(&SUITE_AES_128.to_be_bytes());
    body.push(0);
    let mut share = GROUP_X25519.to_be_bytes().to_vec();
    share.extend_from_slice(&[0, 32]);
    share.extend_from_slice(&BASE_POINT);
    let exts = cat(&[
        encode_extension(EXT_SUPPORTED_VERSIONS, &[3, 4]),
        encode_extension(EXT_KEY_SHARE, &share),
    ]);
    body.extend_from_slice(&(exts.len() as u16).to_be_bytes());
    body.extend_from_slice(&exts);
    opening.on_server_hello(&hs_message(2, &body)).expect("ServerHello")
}

/// Hand a message of the server to the client.
fn hand(flight: &mut Flight, ty: u8, body: &[u8]) -> TlsResult<()> {
    let mut auth = X509ServerAuth::new(RootStore::new(), "localhost".to_string(), NOW, false);
    flight.on_message(ty, &hs_message(ty, body), &mut auth)
}

fn hand_certificate(flight: &mut Flight) {
    let cert = ed25519_certificate();
    let mut list = vec![0, (cert.len() >> 8) as u8, cert.len() as u8];
    list.extend_from_slice(&cert);
    list.extend_from_slice(&[0, 0]);
    let mut body = vec![0, 0, (list.len() >> 8) as u8, list.len() as u8];
    body.extend_from_slice(&list);
    hand(flight, 11, &body).expect("Certificate");
}

fn verify_body(flight: &Flight) -> Vec<u8> {
    let hash = SuiteHash::Sha256.hash(&flight.transcript);
    let mut body = vec![0x08, 0x07, 0, 64];
    body.extend_from_slice(&signed(&cert_verify_content(&hash, false)));
    body
}

fn finished_body(flight: &Flight) -> Vec<u8> {
    let hash = SuiteHash::Sha256;
    let key = hash.finished_key(&flight.secrets.server_hs_traffic);
    hash.hmac(&key, &hash.hash(&flight.transcript))
}

#[test]
fn a_server_has_to_prove_its_key_over_tcp() {
    // Certificate, proof and Finished complete a handshake.
    let mut flight = in_flight();
    hand(&mut flight, 8, &[0, 0]).expect("EncryptedExtensions");
    hand_certificate(&mut flight);
    let body = verify_body(&flight);
    hand(&mut flight, 15, &body).expect("CertificateVerify");
    let body = finished_body(&flight);
    hand(&mut flight, HS_FINISHED, &body).expect("Finished");
    assert!(flight.is_finished());
    assert!(flight.complete("localhost".to_string()).is_ok());

    // Without the proof there is no handshake, though Finished is right.
    let mut flight = in_flight();
    hand(&mut flight, 8, &[0, 0]).expect("EncryptedExtensions");
    hand_certificate(&mut flight);
    let body = finished_body(&flight);
    match hand(&mut flight, HS_FINISHED, &body) {
        Err(Tls13Error::Certificate(m)) => {
            assert_eq!(m, "server did not send a CertificateVerify message")
        }
        other => panic!("{other:?}"),
    }
    assert!(!flight.is_finished());

    // Nor without a certificate.
    let mut flight = in_flight();
    hand(&mut flight, 8, &[0, 0]).expect("EncryptedExtensions");
    let body = finished_body(&flight);
    match hand(&mut flight, HS_FINISHED, &body) {
        Err(Tls13Error::Certificate(m)) => {
            assert_eq!(m, "server did not send a Certificate message")
        }
        other => panic!("{other:?}"),
    }

    // A proof over another transcript is none.
    let mut flight = in_flight();
    hand(&mut flight, 8, &[0, 0]).expect("EncryptedExtensions");
    let early = verify_body(&flight);
    hand_certificate(&mut flight);
    assert!(matches!(hand(&mut flight, 15, &early), Err(Tls13Error::Certificate(_))));
}

#[test]
fn the_server_name_stands_in_a_list() {
    let spec = ClientHelloSpec {
        server_name: "a.b",
        alpn: &[],
        fingerprint: Fingerprint::Off,
        random: &[0x22; 32],
        session_id: [0; 32],
        key_share: &[0x11; 32],
    };
    let hello = build_client_hello(&spec).expect("built");
    let wanted = [0, 0, 0, 8, 0, 6, 0, 0, 3, b'a', b'.', b'b'];
    assert!(hello.raw.windows(wanted.len()).any(|w| w == wanted));
}

#[test]
fn a_signature_is_a_pair_of_numbers() {
    assert!(is_pair(&[0x30, 6, 2, 1, 5, 2, 1, 6]));
    assert!(is_pair(&[]));
    assert!(!is_pair(&[0x30, 0x88, 0xff, 0xff, 0xff, 0xff, 0xff, 0xff, 0xff, 0xff]));
    let inner = [2, 0x88, 0xff, 0xff, 0xff, 0xff, 0xff, 0xff, 0xff, 0xff];
    assert!(!is_pair(&tlv(0x30, &inner)));
}

#[test]
fn a_refused_record_leaves_the_data_alone() {
    let mut flight = in_flight();
    hand(&mut flight, 8, &[0, 0]).expect("EncryptedExtensions");
    hand_certificate(&mut flight);
    let body = verify_body(&flight);
    hand(&mut flight, 15, &body).expect("CertificateVerify");
    let body = finished_body(&flight);
    hand(&mut flight, HS_FINISHED, &body).expect("Finished");
    let (_, mut client) = flight.complete("localhost".to_string()).expect("complete");
    let mut bytes = vec![CONTENT_HANDSHAKE, 3, 3, 0, 1, 9];
    bytes.extend_from_slice(&[20, 3, 3, 0, 1, 1]);
    assert!(client.received(&bytes).expect("bytes"));
    assert!(client.fill_plaintext().is_err());
    assert!(client.plaintext.is_empty());
    assert_eq!(client.read_buf, vec![20, 3, 3, 0, 1, 1]);
}
