//! The settings of the proxy.

use vstd::prelude::*;
use vstd::string::*;

use crate::numbers;
use crate::numbers::parse_unsigned;
use crate::text;
use crate::text::trim_trailing;

verus! {

/// Settings shared by all request handlers.
#[derive(Debug)]
pub struct ProxyConfig {
    /// The address of the upstream Storyteller service, without slashes at its end.
    pub storyteller_url: String,
    /// The address under which clients reach this proxy, if it is set.
    pub public_url: Option<String>,
    /// The directory for prepared books.
    pub cache_dir: String,
    /// The address that the proxy listens on.
    pub listen_addr: String,
    /// How many requests are handled at a time.
    pub threads: usize,
    /// How many bytes of an upstream response are read at most.
    pub max_body_bytes: u64,
    /// How many seconds a prepared book is reused. Zero means that it is served once.
    pub cache_ttl_secs: u64,
}

/// The environment variables that the proxy reads, where they are set.
#[derive(Debug)]
pub struct Environment {
    /// `STORYTELLER_URL`
    pub storyteller_url: Option<String>,
    /// `PUBLIC_URL`
    pub public_url: Option<String>,
    /// `CACHE_DIR`
    pub cache_dir: Option<String>,
    /// `LISTEN_ADDR`
    pub listen_addr: Option<String>,
    /// `THREADS`
    pub threads: Option<String>,
    /// `MAX_BODY_BYTES`
    pub max_body_bytes: Option<String>,
    /// `CACHE_TTL_SECS`
    pub cache_ttl_secs: Option<String>,
}

/// The text of a variable, or `default` where it is not set.
pub open spec fn text_or(variable: Option<String>, default: Seq<char>) -> Seq<char> {
    match variable {
        Some(text) => text@,
        None => default,
    }
}

/// The number that a variable stands for, or `default` where it is not set or stands for no
/// number up to `max`.
pub open spec fn number_or(variable: Option<String>, max: nat, default: nat) -> nat {
    match variable {
        Some(text) => match numbers::bounded_value(text@, max) {
            Some(n) => n,
            None => default,
        },
        None => default,
    }
}

/// The text of a variable, or `default` where it is not set.
fn text_of(variable: Option<String>, default: &str) -> (r: String)
    ensures
        r@ == text_or(variable, default@),
{
    match variable {
        Some(text) => text,
        None => default.to_owned(),
    }
}

/// The number that a variable stands for, or `default` where it stands for none.
fn number_of(variable: Option<String>, max: u64, default: u64) -> (r: u64)
    requires
        default <= max,
    ensures
        r == number_or(variable, max as nat, default as nat),
        r <= max,
{
    match variable {
        Some(text) => match parse_unsigned(text.as_str(), max) {
            Some(n) => n,
            None => default,
        },
        None => default,
    }
}

impl ProxyConfig {
    /// Builds the settings from environment variables.
    pub fn from_env(env: Environment) -> (r: Self)
        ensures
            r.storyteller_url@ == text::without_trailing(
                text_or(env.storyteller_url, "http://localhost:8001"@),
                '/',
            ),
            r.public_url == env.public_url,
            r.cache_dir@ == text_or(env.cache_dir, "./cache"@),
            r.listen_addr@ == text_or(env.listen_addr, "0.0.0.0:8088"@),
            r.threads == number_or(env.threads, usize::MAX as nat, 4),
            r.max_body_bytes == number_or(env.max_body_bytes, u64::MAX as nat, 5_368_709_120),
            r.cache_ttl_secs == number_or(env.cache_ttl_secs, u64::MAX as nat, 86_400),
    {
        let storyteller_url: String = text_of(env.storyteller_url, "http://localhost:8001");
        ProxyConfig {
            storyteller_url: trim_trailing(storyteller_url.as_str(), '/'),
            public_url: env.public_url,
            cache_dir: text_of(env.cache_dir, "./cache"),
            listen_addr: text_of(env.listen_addr, "0.0.0.0:8088"),
            threads: number_of(env.threads, usize::MAX as u64, 4) as usize,
            max_body_bytes: number_of(env.max_body_bytes, u64::MAX, 5_368_709_120),
            cache_ttl_secs: number_of(env.cache_ttl_secs, u64::MAX, 86_400),
        }
    }
}

} // verus!
