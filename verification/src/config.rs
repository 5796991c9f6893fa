//! The service configuration, from the values of its environment variables.

use vstd::prelude::*;

use crate::decimal::{parse_bounded, parse_u32, parse_usize};
use crate::text::{join_path, owned, path_join};

verus! {

/// The values of the configuration variables (`None` for a variable that is
/// unset or not Unicode): `DATA_DIR`, `FLUSH_INTERVAL`, `BIND_ADDR`, `GEOIP_WORKERS`.
pub struct EnvVars {
    pub data_dir: Option<String>,
    pub flush_interval: Option<String>,
    pub bind_addr: Option<String>,
    pub geoip_workers: Option<String>,
}

/// The service configuration.
pub struct Config {
    pub data_dir: String,
    pub images_dir: String,
    pub users_dir: String,
    pub cache_dir: String,
    pub stats_file: String,
    pub version_cache_dir: String,
    pub geoip_cache_dir: String,
    pub flush_interval: u32,
    pub bind_addr: String,
    pub geoip_workers: usize,
}

/// The value of a variable, or `default` when it is unset.
pub open spec fn var_or(v: Option<String>, default: Seq<char>) -> Seq<char> {
    match v {
        Some(s) => s@,
        None => default,
    }
}

/// A numeric variable: its value when it parses within `max`, else `default`.
pub open spec fn number_or(v: Option<String>, max: nat, default: nat) -> nat {
    match v {
        Some(s) => match parse_bounded(s@, max) {
            Some(n) => n,
            None => default,
        },
        None => default,
    }
}

/// A `u32` variable, or `default` when it is unset or does not parse.
pub fn env_u32(value: Option<&str>, default: u32) -> (r: u32)
    ensures
        r as nat == match value {
            Some(s) => match parse_bounded(s@, u32::MAX as nat) {
                Some(n) => n,
                None => default as nat,
            },
            None => default as nat,
        },
{
    match value {
        Some(s) => match parse_u32(s) {
            Some(n) => n,
            None => default,
        },
        None => default,
    }
}

/// A `usize` variable, or `default` when it is unset or does not parse.
pub fn env_usize(value: Option<&str>, default: usize) -> (r: usize)
    ensures
        r as nat == match value {
            Some(s) => match parse_bounded(s@, usize::MAX as nat) {
                Some(n) => n,
                None => default as nat,
            },
            None => default as nat,
        },
{
    match value {
        Some(s) => match parse_usize(s) {
            Some(n) => n,
            None => default,
        },
        None => default,
    }
}

fn as_str_opt(v: &Option<String>) -> (r: Option<&str>)
    ensures
        match v {
            Some(s) => r matches Some(t) && t@ == s@,
            None => r is None,
        },
{
    match v {
        Some(s) => Some(s.as_str()),
        None => None,
    }
}

impl Config {
    /// The configuration: data under `DATA_DIR` (default `../data`) with
    /// `images`, `users` and `cache` in it, `stats.json`, `versions` and
    /// `geoip` in the cache directory; `FLUSH_INTERVAL` (default 10),
    /// `BIND_ADDR` (default `0.0.0.0:3000`) and `GEOIP_WORKERS` (default 3).
    pub fn from_env(vars: &EnvVars) -> (c: Config)
        ensures
            c.data_dir@ == var_or(vars.data_dir, "../data"@),
            c.images_dir@ == path_join(c.data_dir@, "images"@),
            c.users_dir@ == path_join(c.data_dir@, "users"@),
            c.cache_dir@ == path_join(c.data_dir@, "cache"@),
            c.version_cache_dir@ == path_join(c.cache_dir@, "versions"@),
            c.geoip_cache_dir@ == path_join(c.cache_dir@, "geoip"@),
            c.stats_file@ == path_join(c.cache_dir@, "stats.json"@),
            c.flush_interval as nat == number_or(vars.flush_interval, u32::MAX as nat, 10),
            c.bind_addr@ == var_or(vars.bind_addr, "0.0.0.0:3000"@),
            c.geoip_workers as nat == number_or(vars.geoip_workers, usize::MAX as nat, 3),
    {
        let data_dir = match &vars.data_dir {
            Some(d) => d.clone(),
            None => owned("../data"),
        };
        let cache_dir = join_path(data_dir.as_str(), "cache");
        let bind_addr = match &vars.bind_addr {
            Some(b) => b.clone(),
            None => owned("0.0.0.0:3000"),
        };
        Config {
            images_dir: join_path(data_dir.as_str(), "images"),
            users_dir: join_path(data_dir.as_str(), "users"),
            version_cache_dir: join_path(cache_dir.as_str(), "versions"),
            geoip_cache_dir: join_path(cache_dir.as_str(), "geoip"),
            stats_file: join_path(cache_dir.as_str(), "stats.json"),
            cache_dir,
            data_dir,
            flush_interval: env_u32(as_str_opt(&vars.flush_interval), 10),
            bind_addr,
            geoip_workers: env_usize(as_str_opt(&vars.geoip_workers), 3),
        }
    }
}

} // verus!
