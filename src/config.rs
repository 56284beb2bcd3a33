//! Worker configuration: listen address, static root, route table and pool
//! parameters, with the pool defaults.
use vstd::prelude::*;

verus! {

/// Connection-pool parameters.
#[derive(Clone, Debug)]
pub struct PoolConfig {
    /// Cap on idle connections kept, over all upstream addresses.
    pub max_size: usize,
    /// Seconds an idle connection may wait in the pool before it is dropped.
    pub max_idle_secs: u64,
    /// Milliseconds a liveness probe may wait.
    pub probe_timeout_ms: u64,
}

impl Default for PoolConfig {
    fn default() -> (r: Self)
        ensures
            r.max_size == 128,
            r.max_idle_secs == 60,
            r.probe_timeout_ms == 200,
    {
        PoolConfig {
            max_size: default_pool_max_size(),
            max_idle_secs: default_pool_max_idle_secs(),
            probe_timeout_ms: default_pool_probe_timeout_ms(),
        }
    }
}

pub fn default_pool_max_size() -> (r: usize)
    ensures
        r == 128,
{
    128
}

pub fn default_pool_max_idle_secs() -> (r: u64)
    ensures
        r == 60,
{
    60
}

pub fn default_pool_probe_timeout_ms() -> (r: u64)
    ensures
        r == 200,
{
    200
}

/// What a worker runs with.
#[derive(Clone, Debug)]
pub struct AppConfig {
    /// Socket address to listen on, such as `127.0.0.1:8080`.
    pub listen_addr: String,
    /// Directory that static files are served from.
    pub root_path: String,
    /// Route prefixes and the upstream address each one forwards to, in the
    /// order routing tries them.
    pub upstreams: Vec<(String, String)>,
    pub pool: PoolConfig,
}

} // verus!
