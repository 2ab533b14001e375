//! Configuration of the TLS transport.

use super::Result;
use crate::text::{copy_opt, copy_strings, opt_text, owned, same, strings_view};
use vstd::prelude::*;
use vstd::string::*;

verus! {

/// Marker for "accept any server certificate". It has no behaviour.
#[derive(Debug, Clone, Copy, Default)]
pub struct SkipServerVerification;

/// Named client shapes of configurations. They pin the ALPN list and nothing else.
#[derive(Debug, Clone, Copy, PartialEq, Eq, Structural)]
pub enum TlsFingerprint {
    /// No named shape.
    Plain,
    Chrome,
    Firefox,
    Safari,
    Ios,
    Android,
    Edge,
    Random,
}

impl Default for TlsFingerprint {
    fn default() -> (f: Self)
        ensures
            f == TlsFingerprint::Plain,
    {
        TlsFingerprint::Plain
    }
}

impl TlsFingerprint {
    /// The name in configurations.
    pub open spec fn name(self) -> Seq<char> {
        match self {
            TlsFingerprint::Plain => "none"@,
            TlsFingerprint::Chrome => "chrome"@,
            TlsFingerprint::Firefox => "firefox"@,
            TlsFingerprint::Safari => "safari"@,
            TlsFingerprint::Ios => "ios"@,
            TlsFingerprint::Android => "android"@,
            TlsFingerprint::Edge => "edge"@,
            TlsFingerprint::Random => "random"@,
        }
    }

    /// The name in configurations.
    pub fn as_str(&self) -> (r: &'static str)
        ensures
            r@ == self.name(),
    {
        match self {
            TlsFingerprint::Plain => "none",
            TlsFingerprint::Chrome => "chrome",
            TlsFingerprint::Firefox => "firefox",
            TlsFingerprint::Safari => "safari",
            TlsFingerprint::Ios => "ios",
            TlsFingerprint::Android => "android",
            TlsFingerprint::Edge => "edge",
            TlsFingerprint::Random => "random",
        }
    }

    /// The shape with a name.
    pub fn from_name(name: &str) -> (r: Option<Self>)
        ensures
            match r {
                Some(f) => f.name() == name@,
                None => forall|f: TlsFingerprint| (#[trigger] f.name()) != name@,
            },
    {
        if same(name, "none") {
            Some(TlsFingerprint::Plain)
        } else if same(name, "chrome") {
            Some(TlsFingerprint::Chrome)
        } else if same(name, "firefox") {
            Some(TlsFingerprint::Firefox)
        } else if same(name, "safari") {
            Some(TlsFingerprint::Safari)
        } else if same(name, "ios") {
            Some(TlsFingerprint::Ios)
        } else if same(name, "android") {
            Some(TlsFingerprint::Android)
        } else if same(name, "edge") {
            Some(TlsFingerprint::Edge)
        } else if same(name, "random") {
            Some(TlsFingerprint::Random)
        } else {
            None
        }
    }
}

/// The settings of the TLS transport.
#[derive(Debug)]
pub struct TlsConfig {
    pub sni: Option<String>,
    pub alpn: Vec<String>,
    pub skip_cert_verify: bool,
    pub enable_sni: bool,
    pub fingerprint: TlsFingerprint,
    pub min_version: Option<String>,
    pub max_version: Option<String>,
}

impl Default for TlsConfig {
    fn default() -> (c: Self)
        ensures
            c.sni is None,
            strings_view(c.alpn@) == seq!["h2"@, "http/1.1"@],
            !c.skip_cert_verify,
            c.enable_sni,
            c.fingerprint == TlsFingerprint::Plain,
            c.min_version is None,
            c.max_version is None,
    {
        TlsConfig {
            sni: None,
            alpn: browser_protocols(),
            skip_cert_verify: false,
            enable_sni: true,
            fingerprint: TlsFingerprint::Plain,
            min_version: None,
            max_version: None,
        }
    }
}

fn browser_protocols() -> (r: Vec<String>)
    ensures
        strings_view(r@) == seq!["h2"@, "http/1.1"@],
{
    let r: Vec<String> = vec![owned("h2"), owned("http/1.1")];
    proof {
        assert(strings_view(r@) =~= seq!["h2"@, "http/1.1"@]);
    }
    r
}

/// What a TLS connector is built from.
#[derive(Debug)]
pub struct ClientConfig {
    /// Name to send and authenticate in place of the one dialled.
    pub server_name: Option<String>,
    pub alpn: Vec<String>,
    pub skip_cert_verify: bool,
    pub enable_sni: bool,
}

/// A connector's configuration.
pub struct TlsConnector {
    pub config: ClientConfig,
}

impl TlsConnector {
    /// A connector with a configuration.
    pub fn new(config: ClientConfig) -> (r: Self)
        ensures
            r.config == config,
    {
        TlsConnector { config }
    }

    /// The configuration.
    pub fn config(&self) -> (r: &ClientConfig)
        ensures
            *r == self.config,
    {
        &self.config
    }

    /// The name that a connection to `server_name` authenticates.
    pub fn name_for(&self, server_name: &str) -> (r: String)
        ensures
            r@ == match opt_text(self.config.server_name) {
                Some(n) => n,
                None => server_name@,
            },
    {
        match &self.config.server_name {
            Some(n) => owned(n.as_str()),
            None => owned(server_name),
        }
    }
}

/// The protocols that a configuration offers: a named shape pins the browsers' pair where
/// none is configured.
pub open spec fn offered_alpn(c: &TlsConfig) -> Seq<Seq<char>> {
    if c.fingerprint != TlsFingerprint::Plain && c.alpn@.len() == 0 {
        seq!["h2"@, "http/1.1"@]
    } else {
        strings_view(c.alpn@)
    }
}

/// The TLS transport.
pub struct TlsTransport {
    pub config: TlsConfig,
    pub connector: TlsConnector,
    pub server_name: String,
}

impl TlsTransport {
    /// A transport for `server_name`, or for the configured name.
    pub fn new(config: TlsConfig, server_name: &str) -> (r: Result<Self>)
        ensures
            r is Ok,
            r->Ok_0.config == config,
            r->Ok_0.server_name@ == match opt_text(config.sni) {
                Some(n) => n,
                None => server_name@,
            },
            opt_text(r->Ok_0.connector.config.server_name) == opt_text(config.sni),
            strings_view(r->Ok_0.connector.config.alpn@) == offered_alpn(&config),
            r->Ok_0.connector.config.skip_cert_verify == config.skip_cert_verify,
            r->Ok_0.connector.config.enable_sni == config.enable_sni,
    {
        let connector = match Self::build_connector(&config) {
            Ok(c) => c,
            Err(e) => return Err(e),
        };
        let name = match &config.sni {
            Some(n) => owned(n.as_str()),
            None => owned(server_name),
        };
        Ok(TlsTransport { config, connector, server_name: name })
    }

    /// The connector for a configuration.
    pub fn build_connector(config: &TlsConfig) -> (r: Result<TlsConnector>)
        ensures
            r is Ok,
            opt_text(r->Ok_0.config.server_name) == opt_text(config.sni),
            strings_view(r->Ok_0.config.alpn@) == offered_alpn(config),
            r->Ok_0.config.skip_cert_verify == config.skip_cert_verify,
            r->Ok_0.config.enable_sni == config.enable_sni,
    {
        let alpn = if config.fingerprint != TlsFingerprint::Plain && config.alpn.len() == 0 {
            browser_protocols()
        } else {
            copy_strings(&config.alpn)
        };
        Ok(
            TlsConnector::new(
                ClientConfig {
                    server_name: copy_opt(&config.sni),
                    alpn,
                    skip_cert_verify: config.skip_cert_verify,
                    enable_sni: config.enable_sni,
                },
            ),
        )
    }

    /// The configuration.
    pub fn config(&self) -> (r: &TlsConfig)
        ensures
            *r == self.config,
    {
        &self.config
    }

    /// The name that the transport authenticates.
    pub fn server_name(&self) -> (r: &str)
        ensures
            r@ == self.server_name@,
    {
        self.server_name.as_str()
    }
}

} // verus!
