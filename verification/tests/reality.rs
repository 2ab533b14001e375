//! The REALITY session id, its proof, and its options.

use corduit::crypto::x25519_public;
use corduit::json::Json;
use corduit::protocol::reality::client::{
    connect_error, decode_public_key, hex_decode, HexError, RealityClientOptions, RealityHook,
};
use corduit::protocol::reality::wire::{
    client_shared_secret, derive_auth_key, seal_session_id, unseal_session_id,
    verify_ephemeral_certificate, SessionMeta, MAX_SHORT_ID_LEN, SESSION_ID_LEN,
    SESSION_ID_OFFSET, SESSION_PLAIN_LEN,
};
use corduit::protocol::reality::{client_version, version_bytes, RealityError};
use corduit::protocol::tls13::client::{
    assemble, ClientHelloHook, ServerAuth, Tls13ClientConfig,
};
use corduit::protocol::tls13::fingerprint::{build_client_hello, ClientHelloSpec, Fingerprint};
use corduit::protocol::tls13::Tls13Error;
use corduit::x509::LeafCertificate;
use courierust::courierust_tls::crypto::ed25519::Sha512;
use courierust::courierust_tls::crypto::hmac::hmac;
use courierust::courierust_tls::crypto::x25519::x25519;

fn sample_hello() -> (Vec<u8>, [u8; 32]) {
    let random = [0x37u8; 32];
    let alpn = vec![String::from("h2")];
    let hello = build_client_hello(&ClientHelloSpec {
        server_name: "example.com",
        alpn: &alpn,
        fingerprint: Fingerprint::Chrome,
        random: &random,
        session_id: [0u8; 32],
        key_share: &[0x11; 32],
    })
    .expect("build ClientHello");
    (hello.raw, random)
}

/// The client's seal and the server's unseal agree, and the server derives
/// the same auth key from its own private key and the client's key share
/// (two independent ECDH directions).
#[test]
fn seal_unseal_round_trip_with_server_side_key_agreement() {
    // Client ephemeral key pair.
    let client_private = [0x42u8; 32];
    let client_public = x25519_public(&client_private);
    // Server static key pair.
    let server_private = [0x24u8; 32];
    let server_public = x25519_public(&server_private);

    let (mut hello, random) = sample_hello();
    let meta = SessionMeta { version: [1, 8, 0], timestamp: 1_700_000_000, short_id_len: 3 };
    let short_id = [0xAA, 0xBB, 0xCC];

    let client_shared = client_shared_secret(&client_private, &server_public);
    let client_auth = derive_auth_key(&client_shared, &random);
    seal_session_id(&client_auth, &random, &mut hello, &meta, &short_id).expect("seal session id");

    // The sealed bytes must differ from the plaintext meta.
    assert_ne!(
        &hello[SESSION_ID_OFFSET..SESSION_ID_OFFSET + SESSION_PLAIN_LEN],
        &meta.to_bytes(&short_id).expect("meta")[..]
    );

    // Server side: ECDH(server_private, client_public_from_key_share).
    let mut server_shared = [0u8; 32];
    server_shared.copy_from_slice(&x25519(&server_private, &client_public));
    let server_auth = derive_auth_key(&server_shared, &random);
    assert_eq!(client_auth, server_auth, "both sides derive one auth key");

    let (unsealed, unsealed_short_id) =
        unseal_session_id(&server_auth, &random, &mut hello).expect("unseal");
    assert_eq!(unsealed, meta);
    assert_eq!(unsealed_short_id, short_id);
}

/// Tampering with any byte of the ClientHello breaks the session id: the
/// whole message is authenticated as associated data.
#[test]
fn unseal_rejects_tampered_client_hello() {
    let client_private = [0x11u8; 32];
    let server_private = [0x22u8; 32];
    let server_public = x25519_public(&server_private);
    let (mut hello, random) = sample_hello();
    let meta = SessionMeta { version: [0, 3, 9], timestamp: 42, short_id_len: 0 };
    let auth = derive_auth_key(&client_shared_secret(&client_private, &server_public), &random);
    seal_session_id(&auth, &random, &mut hello, &meta, &[]).expect("seal");

    // Flip one bit in the SNI area: the whole ClientHello is the
    // associated data (with the session-id carrier zeroed), so this must
    // fail authentication.
    let mut tampered = hello.clone();
    let sni_probe = SESSION_ID_OFFSET + SESSION_ID_LEN + 20;
    assert!(sni_probe < tampered.len(), "probe lands inside the hello");
    tampered[sni_probe] ^= 0x01;
    assert!(matches!(
        unseal_session_id(&auth, &random, &mut tampered),
        Err(RealityError::Unauthenticated)
    ));

    // A modified byte inside the sealed carrier must fail the tag check,
    // and the buffer must be restored either way.
    let mut flipped = hello.clone();
    flipped[SESSION_ID_OFFSET] ^= 0x01;
    assert!(matches!(
        unseal_session_id(&auth, &random, &mut flipped),
        Err(RealityError::Unauthenticated)
    ));
    assert_eq!(
        flipped[SESSION_ID_OFFSET],
        hello[SESSION_ID_OFFSET] ^ 0x01,
        "the received bytes are left untouched"
    );

    // With the right session id but the wrong nonce.
    let other_random = [0x99u8; 32];
    assert!(unseal_session_id(&auth, &other_random, &mut hello).is_err());
}

/// The ephemeral-certificate proof is `HMAC-SHA512(auth_key, key)` in the
/// certificate's signature field.
#[test]
fn ephemeral_certificate_proof() {
    let auth_key = [0x5Au8; 32];
    let key = [0x17u8; 32];
    let expected = hmac(&mut Sha512::new(), &auth_key, &key);

    assert!(verify_ephemeral_certificate(&auth_key, &key, &expected));
    // Wrong key, wrong signature length, wrong auth key: all rejected.
    assert!(!verify_ephemeral_certificate(&auth_key, &[0x18u8; 32], &expected));
    assert!(!verify_ephemeral_certificate(&auth_key, &key, &expected[..32]));
    assert!(!verify_ephemeral_certificate(&[0x5Bu8; 32], &key, &expected));
    // A key of the wrong length is not an Ed25519 key.
    assert!(!verify_ephemeral_certificate(&auth_key, &[0u8; 31], &expected));
}

/// Short ids hold eight bytes at most (16 hex chars).
#[test]
fn short_id_length_is_enforced() {
    let meta = SessionMeta { version: [0, 0, 1], timestamp: 0, short_id_len: 0 };
    assert!(meta.to_bytes(&[0u8; MAX_SHORT_ID_LEN]).is_ok());
    assert!(matches!(
        meta.to_bytes(&[0u8; MAX_SHORT_ID_LEN + 1]),
        Err(RealityError::Config(_))
    ));
}

/// A short id that ends in zero bytes keeps its declared length only up
/// to the last non-zero byte.
#[test]
fn session_meta_round_trips_fields() {
    let meta = SessionMeta { version: [12, 34, 56], timestamp: 0x0102_0304, short_id_len: 4 };
    let bytes = meta.to_bytes(&[0xDE, 0xAD, 0xBE, 0xEF]).expect("meta");
    let parsed = SessionMeta::from_bytes(&bytes);
    assert_eq!(parsed.version, meta.version);
    assert_eq!(parsed.timestamp, meta.timestamp);
    assert_eq!(parsed.short_id_len, 4);
}

#[test]
fn the_meta_has_a_fixed_layout() {
    let meta = SessionMeta { version: [1, 2, 3], timestamp: 0x0a0b_0c0d, short_id_len: 0 };
    assert_eq!(
        meta.to_bytes(&[0xee, 0xff]).expect("meta"),
        [1, 2, 3, 0, 0x0a, 0x0b, 0x0c, 0x0d, 0xee, 0xff, 0, 0, 0, 0, 0, 0]
    );
}

#[test]
fn a_message_too_short_to_carry_a_session_id_is_refused() {
    let meta = SessionMeta { version: [0, 0, 1], timestamp: 0, short_id_len: 0 };
    let mut short = vec![0u8; SESSION_ID_OFFSET + SESSION_ID_LEN - 1];
    assert!(matches!(
        seal_session_id(&[1; 32], &[2; 32], &mut short, &meta, &[]),
        Err(RealityError::Wire(_))
    ));
    assert!(matches!(
        unseal_session_id(&[1; 32], &[2; 32], &mut short),
        Err(RealityError::Wire(_))
    ));
}

#[test]
fn hexadecimal_and_keys_are_decoded() {
    assert_eq!(hex_decode(b"00fFa0").unwrap(), vec![0, 255, 160]);
    assert_eq!(hex_decode(b"0").unwrap_err(), HexError::OddLength);
    assert_eq!(hex_decode(b"0g").unwrap_err(), HexError::InvalidDigit);
    assert_eq!(decode_public_key(&"00".repeat(32)).unwrap(), [0; 32]);
    let base64 = "AAECAwQFBgcICQoLDA0ODxAREhMUFRYXGBkaGxwdHh8=";
    let counted: Vec<u8> = (0..32).collect();
    assert_eq!(decode_public_key(base64).unwrap()[..], counted[..]);
    assert!(decode_public_key("AAEC").is_err());
    assert!(decode_public_key("not a key").is_err());
}

fn options(entries: &[(&str, &str)]) -> Vec<(String, Json)> {
    entries.iter().map(|(k, v)| (k.to_string(), Json::text(v))).collect()
}

#[test]
fn options_are_read_and_checked() {
    let key = "00".repeat(32);
    let read = RealityClientOptions::from_options(
        &options(&[
            ("public-key", &key),
            ("short-id", "aabb"),
            ("server-name", "decoy.test"),
            ("fingerprint", "chrome"),
        ]),
        "fallback.test",
    )
    .expect("options");
    assert_eq!(read.public_key, [0; 32]);
    assert_eq!(read.short_id, vec![0xaa, 0xbb]);
    assert_eq!(read.server_name, "decoy.test");

    let read = RealityClientOptions::from_options(&options(&[("public-key", &key)]), "fallback.test")
        .expect("options");
    assert_eq!(read.server_name, "fallback.test");
    assert!(read.short_id.is_empty());

    assert!(matches!(
        RealityClientOptions::from_options(&Vec::new(), "x"),
        Err(RealityError::Config(_))
    ));
    let long = options(&[("public-key", &key), ("short-id", "001122334455667788")]);
    assert!(matches!(
        RealityClientOptions::from_options(&long, "x"),
        Err(RealityError::Config(_))
    ));
    let shape = options(&[("public-key", &key), ("fingerprint", "firefox")]);
    assert!(RealityClientOptions::from_options(&shape, "x").is_err());
    let signed = options(&[("public-key", &key), ("mldsa65-verify", "k")]);
    assert!(matches!(
        RealityClientOptions::from_options(&signed, "x"),
        Err(RealityError::Unsupported(_))
    ));
    assert!(RealityClientOptions::from_options(&options(&[("public-key", &key)]), " ").is_err());

    // A field that is no text is malformed, and the error names it.
    for field in ["server-name", "fingerprint", "mldsa65-verify", "spider-x", "short-id"] {
        let mut wrong = options(&[("public-key", &key)]);
        wrong.push((field.to_string(), Json::Uint(1)));
        match RealityClientOptions::from_options(&wrong, "example.com") {
            Err(RealityError::Config(m)) => assert!(m.contains(field), "{m}"),
            _ => panic!("{field}"),
        }
    }
}

#[test]
fn versions_are_taken_apart() {
    assert_eq!(version_bytes("1.2.3"), [1, 2, 3]);
    assert_eq!(version_bytes("1.300.x"), [1, 0, 0]);
    assert_eq!(version_bytes(""), [0, 0, 0]);
    assert_eq!(client_version(), [0, 2, 0]);
}

fn leaf(key: &[u8], signature: &[u8]) -> LeafCertificate {
    LeafCertificate {
        key: key.to_vec(),
        signature: signature.to_vec(),
        dns_names: Vec::new(),
        ip_names: Vec::new(),
    }
}

/// The hook seals what the server opens, and its authentication takes the proof alone.
#[test]
fn the_hook_seals_and_its_proof_is_asked_for() {
    let server_private = [0x24u8; 32];
    let config = Tls13ClientConfig {
        server_name: "decoy.test".to_string(),
        ..Tls13ClientConfig::default()
    };
    let mut draft = assemble(&config, [3; 32], [4; 32]).expect("hello");
    let mut hook = RealityHook::new(x25519_public(&server_private), vec![7, 8], 99);
    let mut before = hook.auth();
    assert!(matches!(
        before.verify_certificate(&[], &leaf(&[0; 32], &[0; 64]), &[]),
        Err(Tls13Error::Certificate(_))
    ));
    hook.on_client_hello(&mut draft).expect("sealed");
    let key = hook.auth_key.expect("key");
    let shared = client_shared_secret(&server_private, &draft.key_share_public);
    assert_eq!(derive_auth_key(&shared, &draft.random), key);
    let (meta, short_id) = unseal_session_id(&key, &draft.random, &mut draft.raw).expect("opens");
    assert_eq!((meta.version, meta.timestamp), ([0, 2, 0], 99));
    assert_eq!(short_id, vec![7, 8]);

    let proof = hmac(&mut Sha512::new(), &key, &[5u8; 32]);
    let mut auth = hook.auth();
    assert!(auth.verify_certificate(&[], &leaf(&[5; 32], &proof), &[]).is_ok());
    let refused = auth.verify_certificate(&[], &leaf(&[6; 32], &proof), &[]).unwrap_err();
    assert!(matches!(connect_error(refused), RealityError::Fallback(_)));
    assert!(matches!(connect_error(Tls13Error::Closed), RealityError::Wire(_)));
}
