use vstd::prelude::*;
use vstd::string::*;
use crate::store::{InMemoryStore, with_backends, with_routes};

verus! {

/// Requests per window when a configuration leaves the quota out.
pub const DEFAULT_QUOTA: u32 = 100;

/// The quota that an optional setting gives.
pub open spec fn quota_of(setting: Option<u32>) -> nat {
    match setting {
        Some(v) => v as nat,
        None => DEFAULT_QUOTA as nat,
    }
}

/// An upstream service, whose table covers the path `url` followed by `prefix`.
#[derive(Debug)]
pub struct BackendConfig {
    pub name: Option<String>,
    pub prefix: Option<String>,
    pub url: String,
    pub rate_limit_ip_min: Option<u32>,
    /// Parsed and kept, but not consulted when admitting requests.
    pub rate_limit_token_min: Option<u32>,
}

/// A single path with a quota of its own, checked before any backend.
#[derive(Debug)]
pub struct RouteConfig {
    pub name: Option<String>,
    pub url: String,
    pub rate_limit_ip_min: Option<u32>,
    /// Parsed and kept, but not consulted when admitting requests.
    pub rate_limit_token_min: Option<u32>,
}

/// The store key of a backend: its URL, then its prefix verbatim if it has one.
pub open spec fn backend_key(b: BackendConfig) -> Seq<char> {
    match b.prefix {
        Some(p) => b.url@ + p@,
        None => b.url@,
    }
}

/// What is wrong with a configuration.
#[derive(Debug)]
pub enum ConfigError {
    ValidationError(String),
}

/// The gateway's settings: its listening address, its backends and its routes.
#[derive(Debug)]
pub struct AegisConfig {
    address: [u8; 4],
    backend_config: Vec<BackendConfig>,
    route_config: Vec<RouteConfig>,
}

impl AegisConfig {
    pub fn new(address: [u8; 4], backend_config: Vec<BackendConfig>, route_config: Vec<RouteConfig>) -> (r: Self)
        ensures
            r.address() == address,
            r.backends() == backend_config@,
            r.routes() == route_config@,
    {
        AegisConfig { address, backend_config, route_config }
    }

    pub closed spec fn address(&self) -> [u8; 4] {
        self.address
    }

    pub closed spec fn backends(&self) -> Seq<BackendConfig> {
        self.backend_config@
    }

    pub closed spec fn routes(&self) -> Seq<RouteConfig> {
        self.route_config@
    }

    /// Every backend and route allows at least one request per window.
    pub open spec fn quotas_positive(&self) -> bool {
        &&& forall|i: int| 0 <= i < self.backends().len() ==> quota_of(
            #[trigger] self.backends()[i].rate_limit_ip_min,
        ) > 0
        &&& forall|i: int| 0 <= i < self.routes().len() ==> quota_of(
            #[trigger] self.routes()[i].rate_limit_ip_min,
        ) > 0
    }

    /// The listening address.
    pub fn get_address(&self) -> (r: [u8; 4])
        ensures
            r == self.address(),
    {
        self.address
    }

    pub fn backend_config(&self) -> (r: &Vec<BackendConfig>)
        ensures
            r@ == self.backends(),
    {
        &self.backend_config
    }

    pub fn route_config(&self) -> (r: &Vec<RouteConfig>)
        ensures
            r@ == self.routes(),
    {
        &self.route_config
    }

    /// A store with a fresh table for every backend and route.
    pub fn to_store(&self) -> (r: InMemoryStore)
        requires
            self.quotas_positive(),
        ensures
            r.wf(),
            r@.backends == with_backends(Map::empty(), self.backends()),
            r@.routes == with_routes(Map::empty(), self.routes()),
    {
        let bcap = self.backend_config.len();
        let rcap = self.route_config.len();
        let mut store = InMemoryStore::init_empty(rcap, bcap);
        store.fill(self);
        store
    }

    /// Accepts a configuration exactly when every quota is positive.
    pub fn validate_config(&self) -> (r: Result<(), ConfigError>)
        ensures
            r is Ok <==> self.quotas_positive(),
    {
        let mut i: usize = 0;
        while i < self.backend_config.len()
            invariant
                i <= self.backends().len(),
                self.backends() == self.backend_config@,
                forall|j: int| 0 <= j < i ==> quota_of(#[trigger] self.backends()[j].rate_limit_ip_min) > 0,
            decreases self.backends().len() - i,
        {
            if let Some(v) = self.backend_config[i].rate_limit_ip_min {
                if v == 0 {
                    return Err(ConfigError::ValidationError(String::from_str("a backend has a quota of zero")));
                }
            }
            i = i + 1;
        }
        let mut i: usize = 0;
        while i < self.route_config.len()
            invariant
                i <= self.routes().len(),
                self.routes() == self.route_config@,
                forall|j: int| 0 <= j < i ==> quota_of(#[trigger] self.routes()[j].rate_limit_ip_min) > 0,
            decreases self.routes().len() - i,
        {
            if let Some(v) = self.route_config[i].rate_limit_ip_min {
                if v == 0 {
                    return Err(ConfigError::ValidationError(String::from_str("a route has a quota of zero")));
                }
            }
            i = i + 1;
        }
        Ok(())
    }
}

} // verus!
