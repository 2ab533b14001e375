//! `ClientHello` construction in a declared shape.
//!
//! A `ClientHello` is public data; what an observer sees is its shape: the cipher
//! suites, the extensions and their order, the groups, the signature algorithms, the
//! padding. The shape comes from a [`Fingerprint`], and what a profile lists but the
//! client cannot construct is reported, never guessed.

use super::codec::{
    encode_extension, ext_bytes, exts_bytes, exts_view, hs_at, hs_bytes, hs_message,
    lemma_exts_bytes_push, lemma_hs_round_trip, EXT_ALPN, EXT_APPLICATION_SETTINGS,
    EXT_COMPRESS_CERTIFICATE, EXT_EC_POINT_FORMATS, EXT_EXTENDED_MASTER_SECRET, EXT_KEY_SHARE,
    EXT_PADDING, EXT_PSK_KEY_EXCHANGE_MODES, EXT_RENEGOTIATION_INFO, EXT_SERVER_NAME,
    EXT_SESSION_TICKET, EXT_SIGNATURE_ALGORITHMS, EXT_SIGNED_CERTIFICATE_TIMESTAMP,
    EXT_STATUS_REQUEST, EXT_SUPPORTED_GROUPS, EXT_SUPPORTED_VERSIONS, GROUP_X25519,
    HS_CLIENT_HELLO, SIG_ECDSA_SECP256R1_SHA256, SIG_ED25519, SIG_RSA_PSS_SHA256,
};
use super::key_schedule::zeros;
use super::{invalid_config, Result, Tls13Error, TlsFault};
use crate::crypto::{digest, digest_of, HashAlg};
use crate::text::{
    chars_of, copy_strings, lower, owned, same, string_of, strings_view, to_lower, trim, trimmed,
};
use crate::wire::{be_bytes, extend, lemma_be_bytes_len, push_be, repeat};
use vstd::prelude::*;
use vstd::string::*;
use vstd::utf8::encode_utf8;

verus! {

/// Why `compress_certificate` is never sent.
pub const OMITS_COMPRESSION: &'static str = "compress_certificate (RFC 8879) is not advertised: certificate decompression is not implemented";

/// Why `application_settings` is never sent.
pub const OMITS_SETTINGS: &'static str = "application_settings (ALPS) is not advertised: the client presents no protocol settings payload";

/// Why any other extension is left out.
pub const OMITS_UNKNOWN: &'static str = "the profile lists an extension this client cannot construct";

/// Extensions that a Chromium profile lists and the client never sends, with the reason.
pub const KNOWN_OMISSIONS: [(u16, &'static str); 2] = [
    (EXT_COMPRESS_CERTIFICATE, OMITS_COMPRESSION),
    (EXT_APPLICATION_SETTINGS, OMITS_SETTINGS),
];

/// Byte offset of the session id in a `ClientHello` message.
pub const SESSION_ID_OFFSET: usize = 39;

// ---------------------------------------------------------------------------
// Profiles
// ---------------------------------------------------------------------------

/// The parameters of a `ClientHello`.
#[derive(Debug)]
pub struct TlsProfile {
    /// Transport: `'t'` for TCP, `'q'` for QUIC, `'d'` for DTLS.
    pub protocol: char,
    /// The version field of the message.
    pub tls_version: u16,
    /// Versions in `supported_versions`, in order.
    pub supported_versions: Vec<u16>,
    /// Whether `server_name` is present.
    pub has_sni: bool,
    /// Cipher suites, in order.
    pub ciphers: Vec<u16>,
    /// Extensions, in order.
    pub extensions: Vec<u16>,
    /// Signature algorithms, in order.
    pub signature_algorithms: Vec<u16>,
    /// Supported groups, in order.
    pub groups: Vec<u16>,
    /// Point formats.
    pub point_formats: Vec<u8>,
    /// ALPN protocols, in order.
    pub alpn: Vec<String>,
}

/// A profile as a mathematical value.
#[verifier::ext_equal]
pub struct ProfileView {
    pub protocol: char,
    pub tls_version: u16,
    pub supported_versions: Seq<u16>,
    pub has_sni: bool,
    pub ciphers: Seq<u16>,
    pub extensions: Seq<u16>,
    pub signature_algorithms: Seq<u16>,
    pub groups: Seq<u16>,
    pub point_formats: Seq<u8>,
    pub alpn: Seq<Seq<char>>,
}

impl View for TlsProfile {
    type V = ProfileView;

    open spec fn view(&self) -> ProfileView {
        ProfileView {
            protocol: self.protocol,
            tls_version: self.tls_version,
            supported_versions: self.supported_versions@,
            has_sni: self.has_sni,
            ciphers: self.ciphers@,
            extensions: self.extensions@,
            signature_algorithms: self.signature_algorithms@,
            groups: self.groups@,
            point_formats: self.point_formats@,
            alpn: strings_view(self.alpn@),
        }
    }
}

/// The Chrome parameter set.
pub open spec fn chrome_profile() -> ProfileView {
    ProfileView {
        protocol: 't',
        tls_version: 0x0303,
        supported_versions: seq![0x0304u16, 0x0303, 0x0302, 0x0301],
        has_sni: true,
        ciphers: seq![
            0x1301u16, 0x1302, 0x1303, 0xc02b, 0xc02f, 0xc02c, 0xc030, 0xcca9, 0xcca8, 0xc013,
            0xc014, 0x009c, 0x009d, 0x002f, 0x0035,
        ],
        extensions: seq![
            0x0000u16, 0x0017, 0xff01, 0x000a, 0x000b, 0x0023, 0x0010, 0x0005, 0x000d, 0x0012,
            0x0033, 0x002d, 0x002b, 0x001b, 0x4469, 0x0015,
        ],
        signature_algorithms: seq![
            0x0403u16, 0x0804, 0x0401, 0x0503, 0x0805, 0x0501, 0x0806, 0x0601,
        ],
        groups: seq![29u16, 23, 24],
        point_formats: seq![0u8],
        alpn: seq!["h2"@, "http/1.1"@],
    }
}

/// `courierust_fingerprint::chrome_tls_profile`: the fixed parameter set of a Chromium
/// browser, value for value.
#[verifier::external_body]
fn chrome_tls_profile() -> (r: TlsProfile)
    ensures
        r@ == chrome_profile(),
{
    let p = courierust::courierust_fingerprint::chrome_tls_profile();
    TlsProfile {
        protocol: p.protocol,
        tls_version: p.tls_version,
        supported_versions: p.supported_versions,
        has_sni: p.has_sni,
        ciphers: p.ciphers,
        extensions: p.extensions,
        signature_algorithms: p.signature_algorithms,
        groups: p.groups,
        point_formats: p.point_formats,
        alpn: p.alpn,
    }
}

fn copy_u16s(s: &[u16]) -> (r: Vec<u16>)
    ensures
        r@ == s@,
{
    vstd::slice::slice_to_vec(s)
}

impl TlsProfile {
    /// The Chrome parameter set.
    pub fn chrome() -> (r: TlsProfile)
        ensures
            r@ == chrome_profile(),
    {
        chrome_tls_profile()
    }

    /// A profile with the same values.
    pub fn copy(&self) -> (r: TlsProfile)
        ensures
            r@ == self@,
    {
        let r = TlsProfile {
            protocol: self.protocol,
            tls_version: self.tls_version,
            supported_versions: copy_u16s(&self.supported_versions),
            has_sni: self.has_sni,
            ciphers: copy_u16s(&self.ciphers),
            extensions: copy_u16s(&self.extensions),
            signature_algorithms: copy_u16s(&self.signature_algorithms),
            groups: copy_u16s(&self.groups),
            point_formats: vstd::slice::slice_to_vec(self.point_formats.as_slice()),
            alpn: copy_strings(&self.alpn),
        };
        proof {
            assert(r@ =~= self@);
        }
        r
    }
}

/// Which client shape a `ClientHello` presents.
#[derive(Debug)]
pub enum Fingerprint {
    /// TLS 1.3 only, X25519, no padding, no GREASE, no legacy extensions.
    Off,
    /// The Chrome parameter set.
    Chrome,
    /// The Chrome parameter set in an order that varies per connection.
    Randomized,
    /// A profile of the caller's.
    Custom(TlsProfile),
}

/// A fingerprint as a mathematical value.
#[verifier::ext_equal]
pub enum FingerprintView {
    Off,
    Chrome,
    Randomized,
    Custom(ProfileView),
}

impl View for Fingerprint {
    type V = FingerprintView;

    open spec fn view(&self) -> FingerprintView {
        match self {
            Fingerprint::Off => FingerprintView::Off,
            Fingerprint::Chrome => FingerprintView::Chrome,
            Fingerprint::Randomized => FingerprintView::Randomized,
            Fingerprint::Custom(p) => FingerprintView::Custom(p@),
        }
    }
}

impl Default for Fingerprint {
    fn default() -> (r: Self)
        ensures
            r == Fingerprint::Off,
    {
        Fingerprint::Off
    }
}

impl FingerprintView {
    /// The parameter set that a fingerprint takes its shape from.
    pub open spec fn base(self) -> Option<ProfileView> {
        match self {
            FingerprintView::Off => None,
            FingerprintView::Chrome | FingerprintView::Randomized => Some(chrome_profile()),
            FingerprintView::Custom(p) => Some(p),
        }
    }

    pub open spec fn name(self) -> Seq<char> {
        match self {
            FingerprintView::Off => "off"@,
            FingerprintView::Chrome => "chrome"@,
            FingerprintView::Randomized => "randomized"@,
            FingerprintView::Custom(_) => "custom"@,
        }
    }
}

/// The text of a refused fingerprint name.
pub open spec fn unsupported_fingerprint(name: Seq<char>) -> Seq<char> {
    "unsupported fingerprint '"@ + name
        + "': shipped profiles are 'chrome', 'randomized' and 'off'; other browsers are not shipped because their parameter sets are not verified against a capture (use Fingerprint::Custom in the API)"@
}

/// The fingerprint that a configuration spells.
pub open spec fn fingerprint_named(text: Seq<char>) -> core::result::Result<
    FingerprintView,
    TlsFault,
> {
    let name = lower(trimmed(text));
    if name == ""@ || name == "off"@ || name == "none"@ {
        Ok(FingerprintView::Off)
    } else if name == "chrome"@ || name == "chromium"@ {
        Ok(FingerprintView::Chrome)
    } else if name == "randomized"@ || name == "random"@ {
        Ok(FingerprintView::Randomized)
    } else {
        Err(TlsFault::InvalidConfig(unsupported_fingerprint(name)))
    }
}

impl Fingerprint {
    /// Parse a configuration spelling. Names of browsers without a shipped profile are
    /// refused, not mapped to another shape.
    pub fn parse(name: &str) -> (r: Result<Self>)
        ensures
            match fingerprint_named(name@) {
                Ok(f) => r is Ok && r->Ok_0@ == f,
                Err(f) => r is Err && r->Err_0@ == f,
            },
    {
        let name = string_of(&to_lower(&trim(&chars_of(name))));
        let n = name.as_str();
        if same(n, "") || same(n, "off") || same(n, "none") {
            Ok(Fingerprint::Off)
        } else if same(n, "chrome") || same(n, "chromium") {
            Ok(Fingerprint::Chrome)
        } else if same(n, "randomized") || same(n, "random") {
            Ok(Fingerprint::Randomized)
        } else {
            let mut m = owned("unsupported fingerprint '");
            m.append(n);
            m.append(
                "': shipped profiles are 'chrome', 'randomized' and 'off'; other browsers are not shipped because their parameter sets are not verified against a capture (use Fingerprint::Custom in the API)",
            );
            Err(Tls13Error::InvalidConfig(m))
        }
    }

    /// The canonical configuration name.
    pub fn canonical_name(&self) -> (r: &'static str)
        ensures
            r@ == self@.name(),
    {
        match self {
            Fingerprint::Off => "off",
            Fingerprint::Chrome => "chrome",
            Fingerprint::Randomized => "randomized",
            Fingerprint::Custom(_) => "custom",
        }
    }

    /// The parameter set that the shape comes from.
    pub fn base_profile(&self) -> (r: Option<TlsProfile>)
        ensures
            match self@.base() {
                None => r is None,
                Some(p) => r is Some && r->Some_0@ == p,
            },
    {
        match self {
            Fingerprint::Off => None,
            Fingerprint::Chrome => Some(chrome_tls_profile()),
            Fingerprint::Randomized => Some(chrome_tls_profile()),
            Fingerprint::Custom(p) => Some(p.copy()),
        }
    }

    /// The signature schemes offered. Empty means that the caller decides.
    pub fn signature_algorithms(&self) -> (r: Vec<u16>)
        ensures
            r@ == match self@.base() {
                None => Seq::empty(),
                Some(p) => p.signature_algorithms,
            },
    {
        match self.base_profile() {
            None => Vec::new(),
            Some(p) => p.signature_algorithms,
        }
    }

    fn is_off(&self) -> (r: bool)
        ensures
            r == (self@ == FingerprintView::Off),
    {
        match self {
            Fingerprint::Off => true,
            _ => false,
        }
    }

    fn is_randomized(&self) -> (r: bool)
        ensures
            r == (self@ == FingerprintView::Randomized),
    {
        match self {
            Fingerprint::Randomized => true,
            _ => false,
        }
    }
}

// ---------------------------------------------------------------------------
// The byte stream behind GREASE and shuffling
// ---------------------------------------------------------------------------

/// Byte `k` of the stream that the random of a `ClientHello` seeds.
pub open spec fn stream_byte(seed: Seq<u8>, k: nat) -> u8 {
    digest_of(HashAlg::Sha256, seed + be_bytes(k / 32, 8))[(k % 32) as int]
}

/// The GREASE value (RFC 8701) drawn at position `k`: both bytes equal, low half `a`.
pub open spec fn grease_at(seed: Seq<u8>, k: nat) -> u16 {
    (((stream_byte(seed, k) % 16) * 16 + 10) * 257) as u16
}

/// A deterministic byte stream: a message is a function of its inputs.
pub struct Stream {
    seed: [u8; 32],
    block: Vec<u8>,
    used: usize,
    counter: u64,
}

impl Stream {
    /// The seed of the stream.
    pub closed spec fn source(&self) -> Seq<u8> {
        self.seed@
    }

    /// The number of bytes drawn.
    pub closed spec fn drawn(&self) -> nat {
        ((self.counter - 1) * 32 + self.used) as nat
    }

    pub closed spec fn wf(&self) -> bool {
        &&& self.counter >= 1
        &&& self.used <= 32
        &&& self.block@.len() == 32
        &&& self.block@ == digest_of(
            HashAlg::Sha256,
            self.seed@ + be_bytes((self.counter - 1) as nat, 8),
        )
    }

    fn block_of(seed: &[u8; 32], counter: u64) -> (r: Vec<u8>)
        ensures
            r@ == digest_of(HashAlg::Sha256, seed@ + be_bytes(counter as nat, 8)),
            r@.len() == 32,
    {
        let mut input: Vec<u8> = Vec::new();
        extend(&mut input, seed.as_slice());
        push_be(&mut input, counter, 8);
        proof {
            assert(input@ =~= seed@ + be_bytes(counter as nat, 8));
        }
        digest(HashAlg::Sha256, &input)
    }

    /// The stream that `random` seeds.
    pub fn new(random: &[u8; 32]) -> (s: Self)
        ensures
            s.wf(),
            s.source() == random@,
            s.drawn() == 0,
    {
        Stream { seed: *random, block: Self::block_of(random, 0), used: 0, counter: 1 }
    }

    /// Draw the next byte.
    pub fn next_u8(&mut self) -> (b: u8)
        requires
            old(self).wf(),
            old(self).drawn() < 0x1_0000_0000_0000_0000 * 8,
        ensures
            final(self).wf(),
            final(self).source() == old(self).source(),
            final(self).drawn() == old(self).drawn() + 1,
            b == stream_byte(old(self).source(), old(self).drawn()),
    {
        if self.used >= 32 {
            self.block = Self::block_of(&self.seed, self.counter);
            self.counter = self.counter + 1;
            self.used = 0;
        }
        let b: u8 = self.block[self.used];
        self.used = self.used + 1;
        b
    }

    /// Draw a GREASE value.
    pub fn grease(&mut self) -> (g: u16)
        requires
            old(self).wf(),
            old(self).drawn() < 0x1_0000_0000_0000_0000 * 8,
        ensures
            final(self).wf(),
            final(self).source() == old(self).source(),
            final(self).drawn() == old(self).drawn() + 1,
            g == grease_at(old(self).source(), old(self).drawn()),
    {
        let n: u16 = (self.next_u8() % 16) as u16;
        (n * 16 + 10) * 257
    }

    /// Shuffle `items` (Fisher and Yates), drawing one byte per step.
    pub fn shuffle(&mut self, items: &mut Vec<(u16, Vec<u8>)>)
        requires
            old(self).wf(),
            old(self).drawn() + old(items)@.len() < 0x1_0000_0000_0000_0000 * 8,
        ensures
            final(self).wf(),
            final(self).source() == old(self).source(),
            exts_view(final(items)@) == shuffled(
                exts_view(old(items)@),
                old(self).source(),
                old(self).drawn(),
                old(items)@.len() - 1,
            ),
    {
        if items.len() < 2 {
            return ;
        }
        let ghost seed = self.source();
        let ghost goal = shuffled(
            exts_view(items@),
            self.source(),
            self.drawn(),
            items@.len() - 1,
        );
        let mut i: usize = items.len() - 1;
        while i >= 1
            invariant
                i < items.len(),
                self.wf(),
                self.source() == seed,
                self.drawn() + i < 0x1_0000_0000_0000_0000 * 8,
                goal == shuffled(exts_view(items@), seed, self.drawn(), i as int),
            decreases i,
        {
            let ghost before = exts_view(items@);
            let b: u8 = self.next_u8();
            let j: usize = (b as usize) % (i + 1);
            exchange(items, i, j);
            proof {
                assert(exts_view(items@) =~= swapped(before, i as int, j as int));
            }
            i = i - 1;
        }
    }
}

/// `s` with the items at `i` and `j` exchanged.
pub open spec fn swapped<T>(s: Seq<T>, i: int, j: int) -> Seq<T> {
    s.update(i, s[j]).update(j, s[i])
}

/// `s` shuffled from position `i` down, with the bytes drawn from position `k` on.
pub open spec fn shuffled<T>(s: Seq<T>, seed: Seq<u8>, k: nat, i: int) -> Seq<T>
    decreases i,
{
    if i < 1 {
        s
    } else {
        let j = (stream_byte(seed, k) as int) % (i + 1);
        shuffled(swapped(s, i, j), seed, k + 1, i - 1)
    }
}

fn exchange(items: &mut Vec<(u16, Vec<u8>)>, i: usize, j: usize)
    requires
        i < old(items)@.len(),
        j < old(items)@.len(),
    ensures
        final(items)@ == swapped(old(items)@, i as int, j as int),
{
    if i == j {
        proof {
            assert(items@ =~= swapped(old(items)@, i as int, j as int));
        }
        return ;
    }
    let mut x: (u16, Vec<u8>) = (0, Vec::new());
    core::mem::swap(&mut x, &mut items[i]);
    core::mem::swap(&mut x, &mut items[j]);
    core::mem::swap(&mut x, &mut items[i]);
    proof {
        assert(items@ =~= swapped(old(items)@, i as int, j as int));
    }
}

/// Shuffling keeps the items: each occurs as often as before.
pub proof fn lemma_shuffle_keeps<T>(s: Seq<T>, seed: Seq<u8>, k: nat, i: int)
    requires
        i < s.len(),
    ensures
        shuffled(s, seed, k, i).to_multiset() == s.to_multiset(),
        shuffled(s, seed, k, i).len() == s.len(),
    decreases i,
{
    if i >= 1 {
        let j = (stream_byte(seed, k) as int) % (i + 1);
        let t = swapped(s, i, j);
        lemma_shuffle_keeps(t, seed, k + 1, i - 1);
        vstd::seq_lib::to_multiset_update(s, i, s[j]);
        vstd::seq_lib::to_multiset_update(s.update(i, s[j]), j, s[i]);
        assert(t.to_multiset() =~= s.to_multiset()) by {
            broadcast use {vstd::multiset::group_multiset_axioms, vstd::seq_lib::to_multiset_contains};

            assert(s.contains(s[i]));
        }
    }
}

// ---------------------------------------------------------------------------
// Extension bodies
// ---------------------------------------------------------------------------

/// Numbers of two bytes, one after another.
pub open spec fn u16s_bytes(s: Seq<u16>) -> Seq<u8>
    decreases s.len(),
{
    if s.len() == 0 {
        Seq::empty()
    } else {
        u16s_bytes(s.drop_last()) + be_bytes(s.last() as nat, 2)
    }
}

/// `s` behind its length in two bytes.
pub open spec fn len16(s: Seq<u8>) -> Seq<u8> {
    be_bytes(s.len(), 2) + s
}

/// `s` behind its length in one byte.
pub open spec fn len8(s: Seq<u8>) -> Seq<u8> {
    seq![(s.len() % 256) as u8] + s
}

fn push_u16s(out: &mut Vec<u8>, s: &[u16])
    ensures
        final(out)@ == old(out)@ + u16s_bytes(s@),
{
    let mut i: usize = 0;
    proof {
        assert(s@.take(0) =~= Seq::empty());
        assert(out@ =~= old(out)@ + u16s_bytes(s@.take(0)));
    }
    while i < s.len()
        invariant
            i <= s@.len(),
            out@ == old(out)@ + u16s_bytes(s@.take(i as int)),
        decreases s@.len() - i,
    {
        push_be(out, s[i] as u64, 2);
        proof {
            assert(s@.take(i + 1).drop_last() =~= s@.take(i as int));
            assert(out@ =~= old(out)@ + u16s_bytes(s@.take(i + 1)));
        }
        i = i + 1;
    }
    proof {
        assert(s@.take(i as int) =~= s@);
    }
}

fn with_len16(s: &[u8]) -> (r: Vec<u8>)
    ensures
        r@ == len16(s@),
{
    let mut out: Vec<u8> = Vec::new();
    push_be(&mut out, s.len() as u64, 2);
    extend(&mut out, s);
    proof {
        assert(out@ =~= len16(s@));
    }
    out
}

fn with_len8(s: &[u8]) -> (r: Vec<u8>)
    ensures
        r@ == len8(s@),
{
    let mut out: Vec<u8> = Vec::new();
    out.push((s.len() % 256) as u8);
    extend(&mut out, s);
    proof {
        assert(out@ =~= len8(s@));
    }
    out
}

/// The body of `server_name`: a list of one host name.
pub open spec fn sni_body(name: Seq<char>) -> Seq<u8> {
    len16(seq![0u8] + len16(encode_utf8(name)))
}

pub(crate) fn server_name_body(name: &str) -> (r: Vec<u8>)
    ensures
        r@ == sni_body(name@),
{
    let host = with_len16(name.as_bytes());
    let mut entry: Vec<u8> = Vec::new();
    entry.push(0x00);
    extend(&mut entry, &host);
    proof {
        assert(entry@ =~= seq![0u8] + host@);
    }
    with_len16(&entry)
}

/// Protocol names behind their lengths; a name of more than 255 bytes is left out.
pub open spec fn alpn_names(list: Seq<Seq<char>>) -> Seq<u8>
    decreases list.len(),
{
    if list.len() == 0 {
        Seq::empty()
    } else if encode_utf8(list.last()).len() > 255 {
        alpn_names(list.drop_last())
    } else {
        alpn_names(list.drop_last()) + len8(encode_utf8(list.last()))
    }
}

/// The body of the ALPN extension: the caller's list, or else the profile's; empty
/// where both are.
pub open spec fn alpn_body(caller: Seq<Seq<char>>, profile: Seq<Seq<char>>) -> Seq<u8> {
    let list = if caller.len() == 0 {
        profile
    } else {
        caller
    };
    if list.len() == 0 {
        Seq::empty()
    } else {
        len16(alpn_names(list))
    }
}

fn alpn_list(caller: &[String], profile: &[String]) -> (r: Vec<u8>)
    ensures
        r@ == alpn_body(strings_view(caller@), strings_view(profile@)),
{
    let list = if caller.len() == 0 {
        profile
    } else {
        caller
    };
    if list.len() == 0 {
        return Vec::new();
    }
    let ghost names = strings_view(list@);
    let mut inner: Vec<u8> = Vec::new();
    let mut i: usize = 0;
    proof {
        assert(names.take(0) =~= Seq::empty());
    }
    while i < list.len()
        invariant
            i <= list@.len(),
            names == strings_view(list@),
            inner@ == alpn_names(names.take(i as int)),
        decreases list@.len() - i,
    {
        let bytes = list[i].as_str().as_bytes();
        proof {
            assert(names.take(i + 1).drop_last() =~= names.take(i as int));
            assert(names.take(i + 1).last() == list@[i as int]@);
        }
        if bytes.len() <= 255 {
            extend(&mut inner, &with_len8(bytes));
        }
        i = i + 1;
    }
    proof {
        assert(names.take(i as int) =~= names);
    }
    with_len16(&inner)
}

/// A list of numbers behind a GREASE value, where one is given.
pub open spec fn greased_list(grease: Option<u16>, s: Seq<u16>) -> Seq<u8> {
    match grease {
        Some(g) => be_bytes(g as nat, 2) + u16s_bytes(s),
        None => u16s_bytes(s),
    }
}

fn numbers(grease: Option<u16>, s: &[u16]) -> (r: Vec<u8>)
    ensures
        r@ == greased_list(grease, s@),
{
    let mut list: Vec<u8> = Vec::new();
    match grease {
        Some(g) => {
            push_be(&mut list, g as u64, 2);
        },
        None => {},
    }
    push_u16s(&mut list, s);
    proof {
        assert(list@ =~= greased_list(grease, s@));
    }
    list
}

/// The body of `key_share`: an empty GREASE share where one is given, then X25519.
pub open spec fn key_share_bytes(public: Seq<u8>, grease: Option<u16>) -> Seq<u8> {
    let share = be_bytes(GROUP_X25519 as nat, 2) + be_bytes(32, 2) + public;
    match grease {
        Some(g) => len16(be_bytes(g as nat, 2) + be_bytes(0, 2) + share),
        None => len16(share),
    }
}

fn key_share_body(public: &[u8; 32], grease: Option<u16>) -> (r: Vec<u8>)
    ensures
        r@ == key_share_bytes(public@, grease),
{
    let mut share: Vec<u8> = Vec::new();
    push_be(&mut share, GROUP_X25519 as u64, 2);
    push_be(&mut share, 32, 2);
    extend(&mut share, public.as_slice());
    proof {
        assert(share@ =~= be_bytes(GROUP_X25519 as nat, 2) + be_bytes(32, 2) + public@);
    }
    match grease {
        Some(g) => {
            let mut entry: Vec<u8> = Vec::new();
            push_be(&mut entry, g as u64, 2);
            push_be(&mut entry, 0, 2);
            extend(&mut entry, &share);
            proof {
                assert(entry@ =~= be_bytes(g as nat, 2) + be_bytes(0, 2) + share@);
            }
            with_len16(&entry)
        },
        None => with_len16(&share),
    }
}

/// The padding that brings a message of `unpadded` bytes to the next multiple of 512,
/// its extension header counted; none where there is no room for the header.
pub open spec fn padding_for(unpadded: nat) -> nat {
    let target = (unpadded / 512 + 1) * 512;
    if target < unpadded + 4 {
        0
    } else {
        (target - unpadded - 4) as nat
    }
}

/// The padding for a message of `unpadded` bytes.
pub fn pad_len(unpadded: u128) -> (pad: usize)
    requires
        unpadded <= 0x4_0000_0000_0000_0000,
    ensures
        pad == padding_for(unpadded as nat),
        pad <= 508,
{
    let target: u128 = (unpadded / 512 + 1) * 512;
    if target < unpadded + 4 {
        0
    } else {
        (target - unpadded - 4) as usize
    }
}

// ---------------------------------------------------------------------------
// The message
// ---------------------------------------------------------------------------

/// The inputs of one `ClientHello`.
pub struct ClientHelloSpec<'a> {
    /// The server's name; empty leaves `server_name` out.
    pub server_name: &'a str,
    /// ALPN protocols to offer. Empty falls back to the profile's.
    pub alpn: &'a [String],
    /// The shape to present.
    pub fingerprint: Fingerprint,
    /// The random of the message.
    pub random: &'a [u8; 32],
    /// The legacy session id.
    pub session_id: [u8; 32],
    /// The client's X25519 key share.
    pub key_share: &'a [u8; 32],
}

/// The inputs as mathematical values.
#[verifier::ext_equal]
pub struct HelloInput {
    pub server_name: Seq<char>,
    pub alpn: Seq<Seq<char>>,
    pub fingerprint: FingerprintView,
    pub random: Seq<u8>,
    pub session_id: Seq<u8>,
    pub key_share: Seq<u8>,
}

impl<'a> View for ClientHelloSpec<'a> {
    type V = HelloInput;

    open spec fn view(&self) -> HelloInput {
        HelloInput {
            server_name: self.server_name@,
            alpn: strings_view(self.alpn@),
            fingerprint: self.fingerprint@,
            random: self.random@,
            session_id: self.session_id@,
            key_share: self.key_share@,
        }
    }
}

/// A completed `ClientHello`.
#[derive(Debug)]
pub struct ClientHello {
    /// The handshake message: type, length, body.
    pub raw: Vec<u8>,
    /// Byte offset of the session id in `raw`.
    pub session_id_offset: usize,
    /// The random in the message.
    pub random: [u8; 32],
    /// Extensions that the profile lists and the message does not hold, by number, with
    /// the reason.
    pub omitted_extensions: Vec<(u16, &'static str)>,
}

/// Whether the client can construct an extension, `padding` apart.
pub open spec fn constructible(t: u16) -> bool {
    ||| t == EXT_SERVER_NAME
    ||| t == EXT_SUPPORTED_GROUPS
    ||| t == EXT_EC_POINT_FORMATS
    ||| t == EXT_SIGNATURE_ALGORITHMS
    ||| t == EXT_ALPN
    ||| t == EXT_SUPPORTED_VERSIONS
    ||| t == EXT_KEY_SHARE
    ||| t == EXT_PSK_KEY_EXCHANGE_MODES
    ||| t == EXT_SESSION_TICKET
    ||| t == EXT_EXTENDED_MASTER_SECRET
    ||| t == EXT_RENEGOTIATION_INFO
    ||| t == EXT_STATUS_REQUEST
    ||| t == EXT_SIGNED_CERTIFICATE_TIMESTAMP
}

/// Whether a profile's extension is reported as left out.
pub open spec fn reported(t: u16) -> bool {
    !constructible(t) && t != EXT_PADDING
}

/// The reason for leaving an extension out.
pub open spec fn omission_reason(t: u16) -> Seq<char> {
    if t == EXT_COMPRESS_CERTIFICATE {
        OMITS_COMPRESSION@
    } else if t == EXT_APPLICATION_SETTINGS {
        OMITS_SETTINGS@
    } else {
        OMITS_UNKNOWN@
    }
}

/// Whether constructing an extension draws a GREASE value.
pub open spec fn draws_grease(t: u16) -> bool {
    t == EXT_SUPPORTED_GROUPS || t == EXT_SUPPORTED_VERSIONS || t == EXT_KEY_SHARE
}

/// The number of GREASE values drawn for a list of extensions.
pub open spec fn draws(list: Seq<u16>) -> nat
    decreases list.len(),
{
    if list.len() == 0 {
        0
    } else if draws_grease(list.last()) {
        draws(list.drop_last()) + 1
    } else {
        draws(list.drop_last())
    }
}

/// The body of one extension of a profile, `g` being the GREASE value at hand; nothing
/// where the message does not get it.
pub open spec fn ext_body(h: HelloInput, p: ProfileView, t: u16, g: u16) -> Option<Seq<u8>> {
    if t == EXT_SERVER_NAME {
        if h.server_name.len() == 0 {
            None
        } else {
            Some(sni_body(h.server_name))
        }
    } else if t == EXT_SUPPORTED_GROUPS {
        Some(len16(greased_list(Some(g), p.groups)))
    } else if t == EXT_EC_POINT_FORMATS {
        Some(len8(p.point_formats))
    } else if t == EXT_SIGNATURE_ALGORITHMS {
        Some(len16(u16s_bytes(p.signature_algorithms)))
    } else if t == EXT_ALPN {
        if alpn_body(h.alpn, p.alpn).len() == 0 {
            None
        } else {
            Some(alpn_body(h.alpn, p.alpn))
        }
    } else if t == EXT_SUPPORTED_VERSIONS {
        Some(len8(greased_list(Some(g), p.supported_versions)))
    } else if t == EXT_KEY_SHARE {
        Some(key_share_bytes(h.key_share, Some(g)))
    } else if t == EXT_PSK_KEY_EXCHANGE_MODES {
        Some(seq![1u8, 1u8])
    } else if t == EXT_SESSION_TICKET || t == EXT_EXTENDED_MASTER_SECRET || t
        == EXT_SIGNED_CERTIFICATE_TIMESTAMP {
        Some(Seq::empty())
    } else if t == EXT_RENEGOTIATION_INFO {
        Some(seq![0u8])
    } else if t == EXT_STATUS_REQUEST {
        Some(seq![1u8, 0u8, 0u8, 1u8, 0u8])
    } else {
        None
    }
}

/// The extensions for the listed types of a profile, in its order. The first draw has
/// gone to the cipher list.
pub open spec fn profile_exts(h: HelloInput, p: ProfileView, list: Seq<u16>) -> Seq<(u16, Seq<u8>)>
    decreases list.len(),
{
    if list.len() == 0 {
        Seq::empty()
    } else {
        let before = profile_exts(h, p, list.drop_last());
        match ext_body(h, p, list.last(), grease_at(h.random, 1 + draws(list.drop_last()))) {
            Some(body) => before.push((list.last(), body)),
            None => before,
        }
    }
}

/// An extension where it has a body.
pub open spec fn if_any(t: u16, body: Seq<u8>) -> Seq<(u16, Seq<u8>)> {
    if body.len() == 0 {
        Seq::empty()
    } else {
        seq![(t, body)]
    }
}

/// The extensions of the minimal shape.
pub open spec fn off_exts(h: HelloInput) -> Seq<(u16, Seq<u8>)> {
    (if h.server_name.len() == 0 {
        Seq::empty()
    } else {
        seq![(EXT_SERVER_NAME, sni_body(h.server_name))]
    }) + if_any(EXT_ALPN, alpn_body(h.alpn, Seq::empty())) + seq![
        (EXT_SUPPORTED_GROUPS, len16(greased_list(None, seq![GROUP_X25519]))),
        (
            EXT_SIGNATURE_ALGORITHMS,
            len16(u16s_bytes(seq![SIG_RSA_PSS_SHA256, SIG_ECDSA_SECP256R1_SHA256, SIG_ED25519])),
        ),
        (EXT_SUPPORTED_VERSIONS, len8(greased_list(None, seq![0x0304u16]))),
        (EXT_KEY_SHARE, key_share_bytes(h.key_share, None)),
    ]
}

/// The extensions of the message, `padding` apart.
pub open spec fn hello_exts(h: HelloInput) -> Seq<(u16, Seq<u8>)> {
    match h.fingerprint.base() {
        None => off_exts(h),
        Some(p) => {
            let k = 1 + draws(p.extensions);
            let listed = seq![(grease_at(h.random, k), Seq::<u8>::empty())] + profile_exts(
                h,
                p,
                p.extensions,
            );
            if h.fingerprint == FingerprintView::Randomized {
                shuffled(listed, h.random, k + 1, listed.len() - 1)
            } else {
                listed
            }
        },
    }
}

/// The cipher suites of the message.
pub open spec fn hello_ciphers(h: HelloInput) -> Seq<u8> {
    match h.fingerprint.base() {
        None => greased_list(None, seq![0x1301u16, 0x1302, 0x1303]),
        Some(p) => greased_list(Some(grease_at(h.random, 0)), p.ciphers),
    }
}

/// The body of the message up to its extensions.
pub open spec fn hello_head(h: HelloInput) -> Seq<u8> {
    seq![3u8, 3u8] + h.random + seq![32u8] + h.session_id + len16(hello_ciphers(h)) + seq![1u8, 0u8]
}

/// The padding of the message.
pub open spec fn hello_padding(h: HelloInput) -> nat {
    if h.fingerprint.base() is None {
        0
    } else {
        padding_for(6 + hello_head(h).len() + exts_bytes(hello_exts(h)).len())
    }
}

/// The extension bytes of the message.
pub open spec fn hello_ext_bytes(h: HelloInput) -> Seq<u8> {
    if hello_padding(h) == 0 {
        exts_bytes(hello_exts(h))
    } else {
        exts_bytes(hello_exts(h)) + ext_bytes(EXT_PADDING, zeros(hello_padding(h)))
    }
}

/// The `ClientHello` message for some inputs, or why there is none.
pub open spec fn hello_of(h: HelloInput) -> core::result::Result<Seq<u8>, TlsFault> {
    if h.fingerprint.base() is Some && h.fingerprint.base()->Some_0.ciphers.len() == 0 {
        Err(TlsFault::InvalidConfig("profile has no cipher suites"@))
    } else if h.fingerprint.base() is Some && profile_exts(
        h,
        h.fingerprint.base()->Some_0,
        h.fingerprint.base()->Some_0.extensions,
    ).len() == 0 {
        Err(TlsFault::InvalidConfig("profile has no constructible extensions"@))
    } else if hello_ext_bytes(h).len() > 0xffff {
        Err(TlsFault::InvalidConfig("ClientHello extensions exceed 65535 bytes"@))
    } else {
        Ok(hs_bytes(HS_CLIENT_HELLO, hello_head(h) + len16(hello_ext_bytes(h))))
    }
}

/// Whether `omitted` lists what a profile holds and the message does not: every such
/// extension once, in ascending order, with its reason.
pub open spec fn lists_omissions(omitted: Seq<(u16, &'static str)>, listed: Seq<u16>) -> bool {
    &&& forall|i: int, j: int| 0 <= i < j < omitted.len() ==> omitted[i].0 < omitted[j].0
    &&& forall|i: int|
        0 <= i < omitted.len() ==> listed.contains(#[trigger] omitted[i].0) && reported(omitted[i].0)
            && omitted[i].1@ == omission_reason(omitted[i].0)
    &&& forall|t: u16| #[trigger]
        listed.contains(t) && reported(t) ==> exists|i: int|
            0 <= i < omitted.len() && (#[trigger] omitted[i]).0 == t
}

fn reason_for(t: u16) -> (r: &'static str)
    ensures
        r@ == omission_reason(t),
{
    if t == EXT_COMPRESS_CERTIFICATE {
        OMITS_COMPRESSION
    } else if t == EXT_APPLICATION_SETTINGS {
        OMITS_SETTINGS
    } else {
        OMITS_UNKNOWN
    }
}

/// Add the omission of `t`, unless it stands there already.
fn note_omission(omitted: &mut Vec<(u16, &'static str)>, t: u16, Ghost(listed): Ghost<Seq<u16>>)
    requires
        lists_omissions(old(omitted)@, listed),
        reported(t),
    ensures
        lists_omissions(final(omitted)@, listed.push(t)),
{
    let mut at: usize = 0;
    while at < omitted.len() && omitted[at].0 < t
        invariant
            at <= omitted@.len(),
            forall|i: int| 0 <= i < at ==> (#[trigger] omitted@[i]).0 < t,
        decreases omitted@.len() - at,
    {
        at = at + 1;
    }
    let ghost before = omitted@;
    proof {
        assert(listed.push(t)[listed.len() as int] == t);
        assert forall|x: u16| #[trigger] listed.push(t).contains(x) implies listed.contains(x) || x
            == t by {
            let i = choose|i: int| 0 <= i < listed.push(t).len() && listed.push(t)[i] == x;
            if i < listed.len() {
                assert(listed[i] == x);
            }
        }
        assert forall|x: u16| #[trigger] listed.contains(x) implies listed.push(t).contains(x) by {
            let i = choose|i: int| 0 <= i < listed.len() && listed[i] == x;
            assert(listed.push(t)[i] == x);
        }
        assert(listed.push(t).contains(t));
    }
    if at < omitted.len() && omitted[at].0 == t {
        proof {
            assert forall|x: u16| #[trigger] listed.push(t).contains(x) && reported(x) implies exists|
                i: int,
            |
                0 <= i < before.len() && (#[trigger] before[i]).0 == x by {
                if x == t {
                    assert(before[at as int].0 == t);
                }
            }
        }
        return ;
    }
    omitted.insert(at, (t, reason_for(t)));
    proof {
        let after = omitted@;
        assert(after[at as int].0 == t);
        assert forall|x: u16| #[trigger] listed.push(t).contains(x) && reported(x) implies exists|
            i: int,
        |
            0 <= i < after.len() && (#[trigger] after[i]).0 == x by {
            if x != t {
                let i = choose|i: int| 0 <= i < before.len() && (#[trigger] before[i]).0 == x;
                if i < at {
                    assert(after[i].0 == x);
                } else {
                    assert(after[i + 1].0 == x);
                }
            }
        }
    }
}

/// The body of one extension of a profile, drawing a GREASE value where it takes one.
fn construct(spec: &ClientHelloSpec<'_>, p: &TlsProfile, t: u16, stream: &mut Stream) -> (r: Option<
    Vec<u8>,
>)
    requires
        old(stream).wf(),
        old(stream).drawn() < 0x1_0000_0000_0000_0000 * 8,
    ensures
        final(stream).wf(),
        final(stream).source() == old(stream).source(),
        final(stream).drawn() == old(stream).drawn() + if draws_grease(t) {
            1int
        } else {
            0
        },
        match ext_body(
            spec@,
            p@,
            t,
            grease_at(old(stream).source(), old(stream).drawn()),
        ) {
            None => r is None,
            Some(body) => r is Some && r->Some_0@ == body,
        },
{
    if t == EXT_SERVER_NAME {
        if spec.server_name.as_bytes().len() == 0 {
            proof {
                lemma_empty_text(spec.server_name@);
            }
            None
        } else {
            proof {
                lemma_empty_text(spec.server_name@);
            }
            Some(server_name_body(spec.server_name))
        }
    } else if t == EXT_SUPPORTED_GROUPS {
        let g: u16 = stream.grease();
        Some(with_len16(&numbers(Some(g), &p.groups)))
    } else if t == EXT_EC_POINT_FORMATS {
        Some(with_len8(&p.point_formats))
    } else if t == EXT_SIGNATURE_ALGORITHMS {
        let list = numbers(None, &p.signature_algorithms);
        Some(with_len16(&list))
    } else if t == EXT_ALPN {
        let alpn = alpn_list(spec.alpn, &p.alpn);
        if alpn.len() == 0 {
            None
        } else {
            Some(alpn)
        }
    } else if t == EXT_SUPPORTED_VERSIONS {
        let g: u16 = stream.grease();
        Some(with_len8(&numbers(Some(g), &p.supported_versions)))
    } else if t == EXT_KEY_SHARE {
        let g: u16 = stream.grease();
        Some(key_share_body(spec.key_share, Some(g)))
    } else if t == EXT_PSK_KEY_EXCHANGE_MODES {
        let body: Vec<u8> = vec![0x01, 0x01];
        proof {
            assert(body@ =~= seq![1u8, 1u8]);
        }
        Some(body)
    } else if t == EXT_SESSION_TICKET || t == EXT_EXTENDED_MASTER_SECRET || t
        == EXT_SIGNED_CERTIFICATE_TIMESTAMP {
        Some(Vec::new())
    } else if t == EXT_RENEGOTIATION_INFO {
        let body: Vec<u8> = vec![0x00];
        proof {
            assert(body@ =~= seq![0u8]);
        }
        Some(body)
    } else if t == EXT_STATUS_REQUEST {
        let body: Vec<u8> = vec![0x01, 0x00, 0x00, 0x01, 0x00];
        proof {
            assert(body@ =~= seq![1u8, 0u8, 0u8, 1u8, 0u8]);
        }
        Some(body)
    } else {
        None
    }
}

/// A text has no bytes exactly where it has no characters.
pub(crate) proof fn lemma_empty_text(s: Seq<char>)
    ensures
        (encode_utf8(s).len() == 0) == (s.len() == 0),
{
    reveal_with_fuel(encode_utf8, 2);
    if s.len() == 0 {
        assert(encode_utf8(s) =~= Seq::empty());
    }
}

fn minimal_extensions(spec: &ClientHelloSpec<'_>) -> (exts: Vec<(u16, Vec<u8>)>)
    ensures
        exts_view(exts@) == off_exts(spec@),
{
    let mut exts: Vec<(u16, Vec<u8>)> = Vec::new();
    let none: Vec<String> = Vec::new();
    proof {
        lemma_empty_text(spec.server_name@);
        assert(strings_view(none@) =~= Seq::empty());
    }
    if spec.server_name.as_bytes().len() != 0 {
        exts.push((EXT_SERVER_NAME, server_name_body(spec.server_name)));
    }
    let alpn = alpn_list(spec.alpn, &none);
    if alpn.len() != 0 {
        exts.push((EXT_ALPN, alpn));
    }
    let groups = [GROUP_X25519];
    let schemes = [SIG_RSA_PSS_SHA256, SIG_ECDSA_SECP256R1_SHA256, SIG_ED25519];
    let versions = [0x0304u16];
    proof {
        assert(groups@ =~= seq![GROUP_X25519]);
        assert(schemes@ =~= seq![SIG_RSA_PSS_SHA256, SIG_ECDSA_SECP256R1_SHA256, SIG_ED25519]);
        assert(versions@ =~= seq![0x0304u16]);
    }
    exts.push((EXT_SUPPORTED_GROUPS, with_len16(&numbers(None, &groups))));
    exts.push((EXT_SIGNATURE_ALGORITHMS, with_len16(&numbers(None, &schemes))));
    exts.push((EXT_SUPPORTED_VERSIONS, with_len8(&numbers(None, &versions))));
    exts.push((EXT_KEY_SHARE, key_share_body(spec.key_share, None)));
    proof {
        assert(exts_view(exts@) =~= off_exts(spec@));
    }
    exts
}

proof fn lemma_draws_bound(list: Seq<u16>)
    ensures
        draws(list) <= list.len(),
    decreases list.len(),
{
    if list.len() > 0 {
        lemma_draws_bound(list.drop_last());
    }
}

fn profile_extensions(
    spec: &ClientHelloSpec<'_>,
    p: &TlsProfile,
    stream: &mut Stream,
    omitted: &mut Vec<(u16, &'static str)>,
) -> (exts: Vec<(u16, Vec<u8>)>)
    requires
        old(stream).wf(),
        old(stream).source() == spec@.random,
        old(stream).drawn() == 1,
        old(omitted)@.len() == 0,
    ensures
        exts_view(exts@) == profile_exts(spec@, p@, p@.extensions),
        exts@.len() <= p@.extensions.len(),
        final(stream).wf(),
        final(stream).source() == spec@.random,
        final(stream).drawn() == 1 + draws(p@.extensions),
        final(stream).drawn() <= 0x1_0000_0000_0000_0000,
        lists_omissions(final(omitted)@, p@.extensions),
{
    let mut exts: Vec<(u16, Vec<u8>)> = Vec::new();
    let ghost h = spec@;
    let ghost list = p@.extensions;
    let mut i: usize = 0;
    proof {
        assert(list.take(0) =~= Seq::empty());
        assert(exts_view(exts@) =~= Seq::empty());
    }
    while i < p.extensions.len()
        invariant
            i <= p.extensions.len(),
            list == p@.extensions,
            h == spec@,
            stream.wf(),
            stream.source() == h.random,
            stream.drawn() == 1 + draws(list.take(i as int)),
            exts_view(exts@) == profile_exts(h, p@, list.take(i as int)),
            exts@.len() <= i,
            lists_omissions(omitted@, list.take(i as int)),
        decreases p.extensions.len() - i,
    {
        let t: u16 = p.extensions[i];
        let ghost before = exts_view(exts@);
        let ghost known = list.take(i as int);
        proof {
            assert(list.take(i + 1) =~= known.push(t));
            assert(list.take(i + 1).drop_last() =~= known);
            lemma_draws_bound(known);
        }
        match construct(spec, p, t, stream) {
            Some(body) => {
                let ghost entry = (t, body@);
                exts.push((t, body));
                proof {
                    assert(exts_view(exts@) =~= before.push(entry));
                }
            },
            None => {},
        }
        if !is_constructible(t) && t != EXT_PADDING {
            note_omission(omitted, t, Ghost(known));
        } else {
            proof {
                assert forall|x: u16| #[trigger] known.push(t).contains(x) implies known.contains(x)
                    || x == t by {
                    let j = choose|j: int| 0 <= j < known.push(t).len() && known.push(t)[j] == x;
                    if j < known.len() {
                        assert(known[j] == x);
                    }
                }
                assert forall|x: u16| #[trigger] known.contains(x) implies known.push(t).contains(
                    x,
                ) by {
                    let j = choose|j: int| 0 <= j < known.len() && known[j] == x;
                    assert(known.push(t)[j] == x);
                }
            }
        }
        i = i + 1;
    }
    proof {
        assert(list.take(i as int) =~= list);
        lemma_draws_bound(list);
    }
    exts
}

fn is_constructible(t: u16) -> (r: bool)
    ensures
        r == constructible(t),
{
    t == EXT_SERVER_NAME || t == EXT_SUPPORTED_GROUPS || t == EXT_EC_POINT_FORMATS || t
        == EXT_SIGNATURE_ALGORITHMS || t == EXT_ALPN || t == EXT_SUPPORTED_VERSIONS || t
        == EXT_KEY_SHARE || t == EXT_PSK_KEY_EXCHANGE_MODES || t == EXT_SESSION_TICKET || t
        == EXT_EXTENDED_MASTER_SECRET || t == EXT_RENEGOTIATION_INFO || t == EXT_STATUS_REQUEST
        || t == EXT_SIGNED_CERTIFICATE_TIMESTAMP
}

fn encode_all(exts: &Vec<(u16, Vec<u8>)>) -> (r: Vec<u8>)
    ensures
        r@ == exts_bytes(exts_view(exts@)),
{
    let mut out: Vec<u8> = Vec::new();
    let ghost all = exts_view(exts@);
    let mut i: usize = 0;
    proof {
        assert(all.take(0) =~= Seq::empty());
    }
    while i < exts.len()
        invariant
            i <= exts@.len(),
            all == exts_view(exts@),
            out@ == exts_bytes(all.take(i as int)),
        decreases exts@.len() - i,
    {
        proof {
            lemma_exts_bytes_push(all.take(i as int), all[i as int]);
            assert(all.take(i + 1) =~= all.take(i as int).push(all[i as int]));
        }
        extend(&mut out, &encode_extension(exts[i].0, &exts[i].1));
        i = i + 1;
    }
    proof {
        assert(all.take(i as int) =~= all);
    }
    out
}

/// Build a `ClientHello` in the shape that `spec` names.
///
/// The session id stands at its fixed offset, and what the profile lists but the message
/// does not hold is reported.
pub fn build_client_hello(spec: &ClientHelloSpec<'_>) -> (r: Result<ClientHello>)
    ensures
        match hello_of(spec@) {
            Ok(raw) => {
                &&& r is Ok
                &&& r->Ok_0.raw@ == raw
                &&& r->Ok_0.session_id_offset == SESSION_ID_OFFSET
                &&& r->Ok_0.random == *spec.random
                &&& raw.len() >= 71
                &&& raw.subrange(39, 71) == spec.session_id@
                &&& lists_omissions(
                    r->Ok_0.omitted_extensions@,
                    match spec@.fingerprint.base() {
                        None => Seq::empty(),
                        Some(p) => p.extensions,
                    },
                )
            },
            Err(f) => r is Err && r->Err_0@ == f,
        },
{
    let mut omitted: Vec<(u16, &'static str)> = Vec::new();
    let profile = spec.fingerprint.base_profile();
    let ghost h = spec@;
    let mut stream = Stream::new(spec.random);
    let browser: bool = !spec.fingerprint.is_off();
    let cipher_bytes = match &profile {
        Some(p) => {
            if p.ciphers.len() == 0 {
                return Err(invalid_config("profile has no cipher suites"));
            }
            let g: u16 = stream.grease();
            numbers(Some(g), &p.ciphers)
        },
        None => {
            let suites = [0x1301u16, 0x1302, 0x1303];
            proof {
                assert(suites@ =~= seq![0x1301u16, 0x1302, 0x1303]);
            }
            numbers(None, &suites)
        },
    };
    let mut body: Vec<u8> = Vec::new();
    body.push(0x03);
    body.push(0x03);
    extend(&mut body, spec.random.as_slice());
    body.push(32);
    extend(&mut body, spec.session_id.as_slice());
    extend(&mut body, &with_len16(&cipher_bytes));
    body.push(0x01);
    body.push(0x00);
    proof {
        assert(body@ =~= hello_head(h));
    }
    let mut exts = match &profile {
        None => minimal_extensions(spec),
        Some(p) => {
            let exts = profile_extensions(spec, p, &mut stream, &mut omitted);
            if exts.len() == 0 {
                return Err(invalid_config("profile has no constructible extensions"));
            }
            exts
        },
    };
    if browser {
        let ghost before = exts_view(exts@);
        let g: u16 = stream.grease();
        exts.insert(0, (g, Vec::new()));
        proof {
            assert(exts_view(exts@) =~= seq![(g, Seq::<u8>::empty())] + before);
        }
        if spec.fingerprint.is_randomized() {
            stream.shuffle(&mut exts);
        }
    }
    proof {
        assert(exts_view(exts@) == hello_exts(h));
    }
    let mut ext_bytes = encode_all(&exts);
    if browser {
        let padded: usize = pad_len(6 + body.len() as u128 + ext_bytes.len() as u128);
        if padded > 0 {
            let zero = repeat(0, padded);
            proof {
                assert(zero@ =~= zeros(padded as nat));
            }
            extend(&mut ext_bytes, &encode_extension(EXT_PADDING, &zero));
        }
    }
    proof {
        assert(ext_bytes@ == hello_ext_bytes(h));
    }
    if ext_bytes.len() > 0xffff {
        return Err(invalid_config("ClientHello extensions exceed 65535 bytes"));
    }
    let tail = with_len16(&ext_bytes);
    extend(&mut body, &tail);
    let raw = hs_message(HS_CLIENT_HELLO, &body);
    proof {
        lemma_be_bytes_len(body@.len(), 3);
        assert(raw@.subrange(39, 71) =~= spec.session_id@);
    }
    Ok(
        ClientHello {
            raw,
            session_id_offset: SESSION_ID_OFFSET,
            random: *spec.random,
            omitted_extensions: omitted,
        },
    )
}

/// The header of a `ClientHello` announces its true length, as long as its cipher list
/// fits in its own length field.
pub proof fn lemma_hello_length(h: HelloInput)
    requires
        hello_of(h) is Ok,
        h.random.len() == 32,
        h.session_id.len() == 32,
        hello_ciphers(h).len() <= 0xffff,
    ensures
        hs_at(hello_of(h)->Ok_0) == Some(
            (HS_CLIENT_HELLO, hello_head(h) + len16(hello_ext_bytes(h))),
        ),
{
    let body = hello_head(h) + len16(hello_ext_bytes(h));
    lemma_be_bytes_len(hello_ciphers(h).len(), 2);
    lemma_be_bytes_len(hello_ext_bytes(h).len(), 2);
    lemma_hs_round_trip(HS_CLIENT_HELLO, body, Seq::empty());
    assert(hs_bytes(HS_CLIENT_HELLO, body) + Seq::<u8>::empty() =~= hs_bytes(HS_CLIENT_HELLO, body));
}

/// A padded message ends on a multiple of 512 bytes.
pub proof fn lemma_padded_length(h: HelloInput)
    requires
        hello_of(h) is Ok,
        hello_padding(h) > 0,
    ensures
        hello_of(h)->Ok_0.len() % 512 == 0,
{
    let n = hello_padding(h);
    let eb = exts_bytes(hello_exts(h));
    let head = hello_head(h);
    lemma_be_bytes_len(EXT_PADDING as nat, 2);
    lemma_be_bytes_len(n, 2);
    lemma_be_bytes_len(hello_ext_bytes(h).len(), 2);
    lemma_be_bytes_len((head + len16(hello_ext_bytes(h))).len(), 3);
    assert(hello_of(h)->Ok_0.len() == 6 + head.len() + eb.len() + 4 + n);
}

/// Whether a list holds an extension of a type.
pub open spec fn holds_ext(exts: Seq<(u16, Seq<u8>)>, t: u16) -> bool {
    exists|i: int| 0 <= i < exts.len() && (#[trigger] exts[i]).0 == t
}

proof fn lemma_profile_exts(h: HelloInput, p: ProfileView, list: Seq<u16>, t: u16)
    requires
        h.server_name.len() > 0,
        alpn_body(h.alpn, p.alpn).len() > 0,
    ensures
        holds_ext(profile_exts(h, p, list), t) <==> constructible(t) && list.contains(t),
    decreases list.len(),
{
    if list.len() > 0 {
        let before = list.drop_last();
        let last = list.last();
        lemma_profile_exts(h, p, before, t);
        let was = profile_exts(h, p, before);
        let now = profile_exts(h, p, list);
        assert(list.contains(t) <==> before.contains(t) || last == t) by {
            if list.contains(t) {
                let i = choose|i: int| 0 <= i < list.len() && list[i] == t;
                if i < before.len() {
                    assert(before[i] == t);
                }
            }
            if before.contains(t) {
                let i = choose|i: int| 0 <= i < before.len() && before[i] == t;
                assert(list[i] == t);
            }
            if last == t {
                assert(list[list.len() - 1] == t);
            }
        }
        if now.len() > was.len() {
            assert(now[was.len() as int].0 == last);
            assert(forall|i: int| 0 <= i < was.len() ==> now[i] == was[i]);
            if holds_ext(was, t) {
                let i = choose|i: int| 0 <= i < was.len() && (#[trigger] was[i]).0 == t;
                assert(now[i].0 == t);
            }
            if holds_ext(now, t) {
                let i = choose|i: int| 0 <= i < now.len() && (#[trigger] now[i]).0 == t;
                if i < was.len() {
                    assert(was[i].0 == t);
                }
            }
        }
    }
}

/// A browser-shaped message that names a server and offers a protocol holds exactly the
/// extensions of its profile that can be constructed, and a GREASE one: whatever its random
/// is, and however it is shuffled. Its padding is not counted.
pub proof fn lemma_extension_set(h: HelloInput, t: u16)
    requires
        h.fingerprint.base() is Some,
        h.server_name.len() > 0,
        alpn_body(h.alpn, h.fingerprint.base()->Some_0.alpn).len() > 0,
    ensures
        constructible(t) ==> (holds_ext(hello_exts(h), t)
            <==> h.fingerprint.base()->Some_0.extensions.contains(t)),
        !constructible(t) ==> (holds_ext(hello_exts(h), t) <==> t == grease_at(
            h.random,
            1 + draws(h.fingerprint.base()->Some_0.extensions),
        )),
{
    let p = h.fingerprint.base()->Some_0;
    let k = 1 + draws(p.extensions);
    let g = grease_at(h.random, k);
    let rest = profile_exts(h, p, p.extensions);
    let listed = seq![(g, Seq::<u8>::empty())] + rest;
    lemma_profile_exts(h, p, p.extensions, t);
    assert(!constructible(g));
    assert(holds_ext(listed, t) <==> t == g || holds_ext(rest, t)) by {
        assert(listed[0].0 == g);
        if holds_ext(rest, t) {
            let i = choose|i: int| 0 <= i < rest.len() && (#[trigger] rest[i]).0 == t;
            assert(listed[i + 1].0 == t);
        }
        if holds_ext(listed, t) {
            let i = choose|i: int| 0 <= i < listed.len() && (#[trigger] listed[i]).0 == t;
            if i > 0 {
                assert(rest[i - 1].0 == t);
            }
        }
    }
    if h.fingerprint == FingerprintView::Randomized {
        let mixed = shuffled(listed, h.random, k + 1, listed.len() - 1);
        lemma_shuffle_keeps(listed, h.random, k + 1, listed.len() - 1);
        if holds_ext(listed, t) {
            let i = choose|i: int| 0 <= i < listed.len() && (#[trigger] listed[i]).0 == t;
            lemma_same_items(listed, mixed, i);
        }
        if holds_ext(mixed, t) {
            let i = choose|i: int| 0 <= i < mixed.len() && (#[trigger] mixed[i]).0 == t;
            lemma_same_items(mixed, listed, i);
        }
    }
}

/// An item of a list stands in every list with the same items.
proof fn lemma_same_items(a: Seq<(u16, Seq<u8>)>, b: Seq<(u16, Seq<u8>)>, i: int)
    requires
        a.to_multiset() == b.to_multiset(),
        0 <= i < a.len(),
    ensures
        holds_ext(b, a[i].0),
{
    let x = a[i];
    assert(a.contains(x));
    vstd::seq_lib::to_multiset_contains(a, x);
    vstd::seq_lib::to_multiset_contains(b, x);
    let j = choose|j: int| 0 <= j < b.len() && b[j] == x;
    assert(b[j].0 == a[i].0);
}

} // verus!
