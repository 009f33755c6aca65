//! The proxy's configuration, and the defaults of its optional settings.

use vstd::prelude::*;

verus! {

/// The whole configuration file.
#[derive(Clone, Debug)]
pub struct Config {
    pub backend: Vec<BackendConfig>,
    pub limiting: Limiting,
    pub load_balancing: LoadBalancing,
    pub oxygen: Oxygen,
    pub health_check: HealthCheck,
    pub networking: Networking,
}

/// The proxy's own listening port.
#[derive(Clone, Debug)]
pub struct Oxygen {
    pub port: u16,
}

/// One backend machine and the ports of the servers it runs.
#[derive(Clone, Debug)]
pub struct BackendConfig {
    pub backend_host: String,
    pub ports: Vec<u16>,
}

/// The rate limiting settings.
#[derive(Clone, Debug)]
pub struct Limiting {
    pub strategy: String,
    pub rate: u32,
    pub window_secs: u64,
    pub memory_budget_mb: u64,
}

/// The load balancing settings.
#[derive(Clone, Debug)]
pub struct LoadBalancing {
    pub strategy: String,
}

/// The health checking settings.
#[derive(Clone, Debug)]
pub struct HealthCheck {
    pub interval_secs: u64,
    pub check_type: String,
    pub path: String,
}

/// The networking settings.
#[derive(Clone, Debug)]
pub struct Networking {
    pub tcp_nodelay: bool,
}

/// Rate limiting is off unless the configuration names a strategy.
pub fn default_limiting_strategy() -> (r: String)
    ensures
        r@ == "no_limiting"@,
{
    String::from_str("no_limiting")
}

/// A rate limiting window lasts one second unless configured.
pub fn default_window_secs() -> (r: u64)
    ensures
        r == 1,
{
    1
}

/// The cache counter may use 100 MB unless configured.
pub fn default_memory_budget_mb() -> (r: u64)
    ensures
        r == 100,
{
    100
}

/// Load balancing is round robin unless configured.
pub fn default_strategy() -> (r: String)
    ensures
        r@ == "round_robin"@,
{
    String::from_str("round_robin")
}

/// Unhealthy backends are checked every two seconds unless configured.
pub fn default_health_check_interval_secs() -> (r: u64)
    ensures
        r == 2,
{
    2
}

/// Backends are checked with a TCP connection unless configured.
pub fn default_health_check_type() -> (r: String)
    ensures
        r@ == "tcp"@,
{
    String::from_str("tcp")
}

/// HTTP checks ask for `/health` unless configured.
pub fn default_health_check_path() -> (r: String)
    ensures
        r@ == "/health"@,
{
    String::from_str("/health")
}

/// Packets are forwarded without delay unless configured.
pub fn default_tcp_nodelay() -> (r: bool)
    ensures
        r,
{
    true
}

impl Default for HealthCheck {
    fn default() -> (r: Self)
        ensures
            r.interval_secs == 2,
            r.check_type@ == "tcp"@,
            r.path@ == "/health"@,
    {
        HealthCheck {
            interval_secs: default_health_check_interval_secs(),
            check_type: default_health_check_type(),
            path: default_health_check_path(),
        }
    }
}

impl Default for Networking {
    fn default() -> (r: Self)
        ensures
            r.tcp_nodelay,
    {
        Networking { tcp_nodelay: default_tcp_nodelay() }
    }
}

} // verus!
