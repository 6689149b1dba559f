//! An authoritative DNS server library: zone-file parsing, an in-memory zone
//! store with wildcard synthesis and longest-suffix zone selection, a pure
//! query processor, RFC 1035 wire framing with the UDP truncation cascade,
//! AXFR streaming, DNSSEC helpers, a per-client rate limiter, and a metrics
//! recorder. Network I/O, configuration loading and logging live outside the
//! library; everything here is pure computation with contracts.

pub mod name;
pub mod text;
pub mod zonefile;
pub mod codec;
pub mod transport;
pub mod rr;
pub mod zone;
pub mod message;
pub mod query;
pub mod dnssec;
pub mod ratelimit;
pub mod metrics;
pub mod config;
