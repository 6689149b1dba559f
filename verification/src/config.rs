//! The validated configuration that the server core consumes: the listen
//! endpoint, worker and logging settings, the zone list, and the optional
//! rate-limit, TCP and DNSSEC sections. Reading a configuration file and
//! deserializing it happen outside the library; the rules that make a
//! configuration acceptable live here.

use vstd::prelude::*;

verus! {

use vstd::string::StringExecFns;

/// The whole configuration: the server section and the zones to serve.
pub struct Config {
    pub server: ServerConfig,
    pub zones: Vec<ZoneConfig>,
}

/// The server section.
pub struct ServerConfig {
    pub listen: String,
    pub workers: usize,
    pub log_level: String,
    pub rate_limit: Option<u32>,
    pub api_listen: Option<String>,
    pub dnssec: Option<DnssecConfig>,
    pub tcp: Option<TcpConfig>,
}

/// TCP connection handling knobs.
#[derive(Clone, Copy, PartialEq, Eq, Structural, Debug)]
pub struct TcpConfig {
    /// Idle timeout for TCP connections in seconds.
    pub idle_timeout: u64,
    /// Greatest number of queries served on one TCP connection.
    pub max_queries_per_connection: usize,
}

/// The DNSSEC section of the configuration.
#[derive(Clone, Copy, PartialEq, Eq, Structural, Debug)]
pub struct DnssecConfig {
    pub validate_signatures: bool,
    pub require_dnssec: bool,
    pub auto_include_dnssec: bool,
}

/// One zone to serve: its name and the path of its zone file.
pub struct ZoneConfig {
    pub name: String,
    pub file: String,
}

impl Clone for ZoneConfig {
    fn clone(&self) -> (r: Self)
        ensures
            r.name@ == self.name@,
            r.file@ == self.file@,
    {
        ZoneConfig { name: self.name.clone(), file: self.file.clone() }
    }
}

/// The listen endpoint assumed when none is configured.
pub fn default_listen() -> (r: String)
    ensures
        r@ == "0.0.0.0:53"@,
{
    String::from_str("0.0.0.0:53")
}

/// DNSSEC records are included on request unless configured otherwise.
pub fn default_auto_include_dnssec() -> (r: bool)
    ensures
        r,
{
    true
}

/// The worker count assumed when none is configured.
pub fn default_workers() -> (r: usize)
    ensures
        r == 4,
{
    4
}

/// The log level assumed when none is configured.
pub fn default_log_level() -> (r: String)
    ensures
        r@ == "info"@,
{
    String::from_str("info")
}

/// The TCP idle timeout assumed when none is configured, in seconds.
pub fn default_tcp_idle_timeout() -> (r: u64)
    ensures
        r == 30,
{
    30
}

/// The per-connection query cap assumed when none is configured.
pub fn default_tcp_max_queries() -> (r: usize)
    ensures
        r == 100,
{
    100
}

/// Why a configuration is rejected.
#[derive(Clone, Copy, PartialEq, Eq, Structural, Debug)]
pub enum ConfigError {
    NoZones,
    EmptyZoneName,
}

impl ConfigError {
    /// A human-readable description of the rejection.
    pub fn message(&self) -> (r: String)
        ensures
            r@ == self.spec_message(),
    {
        match self {
            ConfigError::NoZones => String::from_str("At least one zone must be configured"),
            ConfigError::EmptyZoneName => String::from_str("Zone name cannot be empty"),
        }
    }

    pub open spec fn spec_message(&self) -> Seq<char> {
        match self {
            ConfigError::NoZones => "At least one zone must be configured"@,
            ConfigError::EmptyZoneName => "Zone name cannot be empty"@,
        }
    }
}

impl Config {
    /// Accepts a configuration exactly when it names at least one zone
    /// and no zone name is empty. That each zone file can be read is
    /// established by whoever reads the files.
    pub fn validate(&self) -> (r: Result<(), ConfigError>)
        ensures
            r is Ok <==> self.zones@.len() > 0 && (forall|i: int|
                0 <= i < self.zones@.len() ==> (#[trigger] self.zones@[i]).name@.len() > 0),
            r == Result::<(), ConfigError>::Err(ConfigError::NoZones) <==> self.zones@.len()
                == 0,
            r == Result::<(), ConfigError>::Err(ConfigError::EmptyZoneName) <==> (
            self.zones@.len() > 0 && exists|i: int|
                0 <= i < self.zones@.len() && (#[trigger] self.zones@[i]).name@.len() == 0),
    {
        if self.zones.len() == 0 {
            return Err(ConfigError::NoZones);
        }
        let mut i: usize = 0;
        while i < self.zones.len()
            invariant
                i <= self.zones@.len(),
                self.zones@.len() > 0,
                forall|j: int| 0 <= j < i ==> (#[trigger] self.zones@[j]).name@.len() > 0,
            decreases self.zones@.len() - i,
        {
            if self.zones[i].name.as_str().is_empty() {
                return Err(ConfigError::EmptyZoneName);
            }
            i = i + 1;
        }
        Ok(())
    }
}

} // verus!
