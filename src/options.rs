use vstd::prelude::*;
use vstd::string::StringExecFns;

verus! {

/// How the command-line shell presents its work.
#[derive(Debug)]
pub struct ClientOptions {
    pub logging: String,
    pub minify: bool,
    pub mode: String,
    pub output_durations: bool,
    pub key_encoding: String,
    pub value_encoding: String,
}

/// The given text, or `default` where none was given.
pub open spec fn or_default(given: Option<String>, default: Seq<char>) -> Seq<char> {
    match given {
        Some(s) => s@,
        None => default,
    }
}

fn given_or(given: Option<String>, default: &str) -> (r: String)
    ensures
        r@ == or_default(given, default@),
{
    match given {
        Some(s) => s,
        None => String::from_str(default),
    }
}

impl Default for ClientOptions {
    /// Logging at `info`, transaction mode, durations shown, UTF-8 keys and values.
    fn default() -> (r: ClientOptions)
        ensures
            r.logging@ == "info"@,
            !r.minify,
            r.mode@ == "transaction"@,
            r.output_durations,
            r.key_encoding@ == "utf-8"@,
            r.value_encoding@ == "utf-8"@,
    {
        ClientOptions {
            logging: String::from_str("info"),
            minify: false,
            mode: String::from_str("transaction"),
            output_durations: true,
            key_encoding: String::from_str("utf-8"),
            value_encoding: String::from_str("utf-8"),
        }
    }
}

/// The options that the command-line arguments give: each value that was
/// given, and the default otherwise. `minify` is set by its flag;
/// durations are shown unless `hide_durations` was given.
pub fn create_client_opts_from_arguments(
    logging: Option<String>,
    minify: bool,
    mode: Option<String>,
    hide_durations: bool,
    key_encoding: Option<String>,
    value_encoding: Option<String>,
) -> (r: ClientOptions)
    ensures
        r.logging@ == or_default(logging, "info"@),
        r.minify == minify,
        r.mode@ == or_default(mode, "transaction"@),
        r.output_durations == !hide_durations,
        r.key_encoding@ == or_default(key_encoding, "utf-8"@),
        r.value_encoding@ == or_default(value_encoding, "utf-8"@),
{
    ClientOptions {
        logging: given_or(logging, "info"),
        minify,
        mode: given_or(mode, "transaction"),
        output_durations: !hide_durations,
        key_encoding: given_or(key_encoding, "utf-8"),
        value_encoding: given_or(value_encoding, "utf-8"),
    }
}

/// The paths of the transport credentials.
#[derive(Debug)]
pub struct TlsOptions {
    pub ca_path: String,
    pub cert_path: String,
    pub key_path: String,
}

/// Where the cluster is and how to reach it: the endpoints of the metadata
/// authority, and the credential paths where the transport is secured.
#[derive(Debug)]
pub struct Config {
    pub endpoints: Vec<String>,
    pub security: Option<TlsOptions>,
}

impl Config {
    /// A configuration for `endpoints` with an unsecured transport.
    pub fn new(endpoints: Vec<String>) -> (r: Config)
        ensures
            r.endpoints@ == endpoints@,
            r.security is None,
    {
        Config { endpoints, security: None }
    }

    /// The same configuration with the transport secured by the given credentials.
    pub fn with_security(self, ca_path: String, cert_path: String, key_path: String) -> (r: Config)
        ensures
            r.endpoints@ == self.endpoints@,
            r.security is Some,
            r.security->0.ca_path@ == ca_path@,
            r.security->0.cert_path@ == cert_path@,
            r.security->0.key_path@ == key_path@,
    {
        Config { endpoints: self.endpoints, security: Some(TlsOptions { ca_path, cert_path, key_path }) }
    }
}

/// The configuration that the arguments give: secured with the three
/// credential paths where a key path was given, unsecured otherwise.
/// A key path comes with a CA path and a certificate path.
pub fn generate_config_from_arguments(
    endpoints: Vec<String>,
    ca_path: Option<String>,
    cert_path: Option<String>,
    key_path: Option<String>,
) -> (r: Config)
    requires
        key_path is Some ==> ca_path is Some && cert_path is Some,
    ensures
        r.endpoints@ == endpoints@,
        r.security is Some <==> key_path is Some,
        r.security is Some ==> r.security->0.ca_path@ == ca_path->0@ && r.security->0.cert_path@
            == cert_path->0@ && r.security->0.key_path@ == key_path->0@,
{
    match (key_path, ca_path, cert_path) {
        (Some(key), Some(ca), Some(cert)) => Config::new(endpoints).with_security(ca, cert, key),
        _ => Config::new(endpoints),
    }
}

} // verus!
