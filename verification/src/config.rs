//! Settings, their defaults, and the ranges they must lie in.
use vstd::prelude::*;
use vstd::string::*;

use crate::error::{misconfigured, verdict, Error, ErrorView, Result, Verdict};
use crate::model::{id_verdict, is_valid_id, valid_id, validate_id};
use crate::outside::{parse_url, parsed_url, UrlView};
use crate::text::{split, split_text, starts_with, text_eq, views};

verus! {

#[derive(Clone, Debug)]
pub struct Config {
    pub server: ServerConfig,
    pub storage: StorageConfig,
    pub database: DatabaseConfig,
    pub index: IndexConfig,
    pub limits: LimitsConfig,
    pub auth: AuthConfig,
    pub cluster: Option<ClusterConfig>,
}

#[derive(Clone, Debug)]
pub struct ServerConfig {
    pub bind: String,
    pub max_concurrent_queries: usize,
    pub request_timeout_ms: u64,
}

#[derive(Clone, Debug)]
pub enum StorageConfig {
    Local { path: String },
    S3 { bucket: String, region: String, endpoint: Option<String>, allow_http: bool },
}

#[derive(Clone, Debug)]
pub struct DatabaseConfig {
    pub prefix: String,
    pub wal_flush_ms: u64,
    pub cache_dir: Option<String>,
    pub cache_bytes: usize,
    pub migrate: bool,
    pub l0_sst_bytes: usize,
}

#[derive(Clone, Copy, Debug)]
pub struct IndexConfig {
    pub interval_ms: u64,
    pub clusters: usize,
    pub iterations: usize,
    pub max_build_bytes: usize,
    pub filter_scan_threshold: usize,
}

#[derive(Clone, Copy, Debug)]
pub struct LimitsConfig {
    pub max_documents: u64,
    pub max_namespace_bytes: u64,
    pub max_pending_documents: u64,
}

#[derive(Clone, Debug)]
pub struct AuthConfig {
    pub grants: Vec<GrantConfig>,
}

/// Access to one namespace for the holder of the token that an environment
/// variable names.
#[derive(Clone, Debug)]
pub struct GrantConfig {
    pub namespace: String,
    pub token_env: String,
    pub write: bool,
}

#[derive(Clone, Debug)]
pub enum ClusterConfig {
    Worker { node_id: String, lease_ms: u64 },
    Gateway { shards: Vec<ShardConfig>, upstream_token_env: String },
}

#[derive(Clone, Debug)]
pub struct ShardConfig {
    pub id: String,
    pub workers: Vec<String>,
}

// ---------------------------------------------------------------------------
// Defaults
// ---------------------------------------------------------------------------
impl Default for ServerConfig {
    fn default() -> (server: Self)
        ensures
            server.bind@ == "127.0.0.1:7878"@,
            server.max_concurrent_queries == 4,
            server.request_timeout_ms == 30000,
    {
        ServerConfig {
            bind: "127.0.0.1:7878".to_string(),
            max_concurrent_queries: 4,
            request_timeout_ms: 30000,
        }
    }
}

impl Default for StorageConfig {
    fn default() -> (storage: Self)
        ensures
            storage matches StorageConfig::Local { path } && path@ == "./data"@,
    {
        StorageConfig::Local { path: "./data".to_string() }
    }
}

pub fn default_region() -> (region: String)
    ensures
        region@ == "us-east-1"@,
{
    "us-east-1".to_string()
}

pub fn default_lease() -> (lease_ms: u64)
    ensures
        lease_ms == 9000,
{
    9000
}

impl Default for DatabaseConfig {
    fn default() -> (database: Self)
        ensures
            database.prefix@ == "gengis-mimi/v1"@,
            database.wal_flush_ms == 100,
            database.cache_dir is None,
            database.cache_bytes == 536870912,
            !database.migrate,
            database.l0_sst_bytes == 16777216,
    {
        DatabaseConfig {
            prefix: "gengis-mimi/v1".to_string(),
            wal_flush_ms: 100,
            cache_dir: None,
            cache_bytes: 536870912,
            migrate: false,
            l0_sst_bytes: 16777216,
        }
    }
}

impl Default for IndexConfig {
    fn default() -> (index: Self)
        ensures
            index == (IndexConfig {
                interval_ms: 5000,
                clusters: 32,
                iterations: 4,
                max_build_bytes: 536870912,
                filter_scan_threshold: 4096,
            }),
    {
        IndexConfig {
            interval_ms: 5000,
            clusters: 32,
            iterations: 4,
            max_build_bytes: 536870912,
            filter_scan_threshold: 4096,
        }
    }
}

impl Default for LimitsConfig {
    fn default() -> (limits: Self)
        ensures
            limits == (LimitsConfig {
                max_documents: 1000000,
                max_namespace_bytes: 17179869184,
                max_pending_documents: 50000,
            }),
    {
        LimitsConfig {
            max_documents: 1000000,
            max_namespace_bytes: 17179869184,
            max_pending_documents: 50000,
        }
    }
}

impl Default for AuthConfig {
    fn default() -> (auth: Self)
        ensures
            auth.grants@.len() == 0,
    {
        AuthConfig { grants: Vec::new() }
    }
}

impl Default for Config {
    fn default() -> (config: Self)
        ensures
            config.server.bind@ == "127.0.0.1:7878"@,
            config.server.max_concurrent_queries == 4,
            config.server.request_timeout_ms == 30000,
            config.storage matches StorageConfig::Local { path } && path@ == "./data"@,
            config.database.prefix@ == "gengis-mimi/v1"@,
            config.database.wal_flush_ms == 100,
            config.database.cache_dir is None,
            config.database.cache_bytes == 536870912,
            !config.database.migrate,
            config.database.l0_sst_bytes == 16777216,
            config.index == (IndexConfig {
                interval_ms: 5000,
                clusters: 32,
                iterations: 4,
                max_build_bytes: 536870912,
                filter_scan_threshold: 4096,
            }),
            config.limits == (LimitsConfig {
                max_documents: 1000000,
                max_namespace_bytes: 17179869184,
                max_pending_documents: 50000,
            }),
            config.auth.grants@.len() == 0,
            config.cluster is None,
            config.config_verdict() is Ok,
    {
        let config = Config {
            server: ServerConfig::default(),
            storage: StorageConfig::default(),
            database: DatabaseConfig::default(),
            index: IndexConfig::default(),
            limits: LimitsConfig::default(),
            auth: AuthConfig::default(),
            cluster: None,
        };
        proof {
            lemma_default_prefix();
        }
        config
    }
}

// ---------------------------------------------------------------------------
// Clusters
// ---------------------------------------------------------------------------
/// An HTTP(S) origin: no path, query, fragment or credentials.
pub open spec fn url_origin(url: UrlView) -> bool {
    &&& url.scheme == "http"@ || url.scheme == "https"@
    &&& url.path == "/"@
    &&& url.query is None
    &&& url.fragment is None
    &&& url.username.len() == 0
    &&& url.password is None
}

pub open spec fn worker_verdict(address: Seq<char>) -> Verdict {
    match parsed_url(address) {
        Err(message) => Err(ErrorView::Config(message)),
        Ok(url) => if url_origin(url) {
            Ok(())
        } else {
            Err(ErrorView::Config("worker addresses must be HTTP(S) origins"@))
        },
    }
}

/// The first address among the first `n` that is no origin decides.
pub open spec fn workers_verdict(workers: Seq<String>, n: nat) -> Verdict
    decreases n,
{
    if n == 0 {
        Ok(())
    } else if workers_verdict(workers, (n - 1) as nat) is Err {
        workers_verdict(workers, (n - 1) as nat)
    } else {
        worker_verdict(workers[n - 1]@)
    }
}

pub open spec fn shard_repeated(shards: Seq<ShardConfig>, i: int) -> bool {
    exists|j: int| 0 <= j < i && (#[trigger] shards[j]).id@ == shards[i].id@
}

pub open spec fn shard_verdict(shards: Seq<ShardConfig>, i: int) -> Verdict {
    let shard = shards[i];
    if id_verdict(shard.id@) is Err {
        id_verdict(shard.id@)
    } else if shard_repeated(shards, i) || !(1 <= shard.workers@.len() <= 8) {
        Err(ErrorView::Config("shard IDs must be unique, each with 1..8 workers"@))
    } else {
        workers_verdict(shard.workers@, shard.workers@.len())
    }
}

pub open spec fn shards_verdict(shards: Seq<ShardConfig>, n: nat) -> Verdict
    decreases n,
{
    if n == 0 {
        Ok(())
    } else if shards_verdict(shards, (n - 1) as nat) is Err {
        shards_verdict(shards, (n - 1) as nat)
    } else {
        shard_verdict(shards, n - 1)
    }
}

fn is_origin(address: &str) -> (result: Result<()>)
    ensures
        verdict(result) == worker_verdict(address@),
{
    match parse_url(address) {
        Err(message) => Err(Error::Config(message)),
        Ok(url) => {
            let scheme = text_eq(url.scheme.as_str(), "http") || text_eq(url.scheme.as_str(), "https");
            let path = text_eq(url.path.as_str(), "/");
            let user = url.username.as_str().as_bytes().len() == 0;
            proof {
                crate::text::lemma_encode_empty(url.username@);
            }
            if scheme && path && url.query.is_none() && url.fragment.is_none() && user
                && url.password.is_none() {
                Ok(())
            } else {
                Err(misconfigured("worker addresses must be HTTP(S) origins"))
            }
        },
    }
}

impl ClusterConfig {
    pub open spec fn cluster_verdict(self) -> Verdict {
        match self {
            ClusterConfig::Worker { node_id, lease_ms } => if id_verdict(node_id@) is Err {
                id_verdict(node_id@)
            } else if !(3000 <= lease_ms <= 300000) {
                Err(ErrorView::Config("lease_ms must be 3000..300000"@))
            } else {
                Ok(())
            },
            ClusterConfig::Gateway { shards, upstream_token_env } => if shards@.len() == 0
                || shards@.len() > 128 || upstream_token_env@.len() == 0 {
                Err(
                    ErrorView::Config(
                        "gateway requires 1..128 shards and an upstream token environment variable"@,
                    ),
                )
            } else {
                shards_verdict(shards@, shards@.len())
            },
        }
    }

    pub fn validate(&self) -> (result: Result<()>)
        ensures
            verdict(result) == self.cluster_verdict(),
    {
        match self {
            ClusterConfig::Worker { node_id, lease_ms } => {
                match validate_id(node_id.as_str()) {
                    Ok(_) => {},
                    Err(e) => return Err(e),
                }
                if *lease_ms < 3000 || *lease_ms > 300000 {
                    return Err(misconfigured("lease_ms must be 3000..300000"));
                }
                Ok(())
            },
            ClusterConfig::Gateway { shards, upstream_token_env } => {
                proof {
                    crate::text::lemma_encode_empty(upstream_token_env@);
                }
                if shards.len() == 0 || shards.len() > 128
                    || upstream_token_env.as_str().as_bytes().len() == 0 {
                    return Err(
                        misconfigured(
                            "gateway requires 1..128 shards and an upstream token environment variable",
                        ),
                    );
                }
                validate_shards(shards)
            },
        }
    }
}

fn validate_shards(shards: &Vec<ShardConfig>) -> (result: Result<()>)
    ensures
        verdict(result) == shards_verdict(shards@, shards@.len()),
{
    let mut i: usize = 0;
    while i < shards.len()
        invariant
            i <= shards@.len(),
            shards_verdict(shards@, i as nat) is Ok,
        decreases shards@.len() - i,
    {
        match validate_shard(shards, i) {
            Ok(_) => {},
            Err(e) => {
                proof {
                    lemma_first_shard_decides(shards@, (i + 1) as nat, shards@.len());
                }
                return Err(e);
            },
        }
        i += 1;
    }
    Ok(())
}

proof fn lemma_first_shard_decides(shards: Seq<ShardConfig>, i: nat, n: nat)
    requires
        i <= n,
        shards_verdict(shards, i) is Err,
    ensures
        shards_verdict(shards, n) == shards_verdict(shards, i),
    decreases n,
{
    if i < n {
        lemma_first_shard_decides(shards, i, (n - 1) as nat);
    }
}

proof fn lemma_first_worker_decides(workers: Seq<String>, i: nat, n: nat)
    requires
        i <= n,
        workers_verdict(workers, i) is Err,
    ensures
        workers_verdict(workers, n) == workers_verdict(workers, i),
    decreases n,
{
    if i < n {
        lemma_first_worker_decides(workers, i, (n - 1) as nat);
    }
}

fn validate_shard(shards: &Vec<ShardConfig>, i: usize) -> (result: Result<()>)
    requires
        i < shards@.len(),
    ensures
        verdict(result) == shard_verdict(shards@, i as int),
{
    match validate_id(shards[i].id.as_str()) {
        Ok(_) => {},
        Err(e) => return Err(e),
    }
    let mut repeated = false;
    let mut j: usize = 0;
    while j < i
        invariant
            j <= i < shards@.len(),
            repeated == exists|k: int| 0 <= k < j && (#[trigger] shards@[k]).id@ == shards@[i as int].id@,
        decreases i - j,
    {
        if text_eq(shards[j].id.as_str(), shards[i].id.as_str()) {
            repeated = true;
        }
        j += 1;
    }
    let workers = &shards[i].workers;
    if repeated || workers.len() == 0 || workers.len() > 8 {
        return Err(misconfigured("shard IDs must be unique, each with 1..8 workers"));
    }
    let mut k: usize = 0;
    while k < workers.len()
        invariant
            k <= workers@.len(),
            shard_verdict(shards@, i as int) == workers_verdict(workers@, workers@.len()),
            workers_verdict(workers@, k as nat) is Ok,
        decreases workers@.len() - k,
    {
        match is_origin(workers[k].as_str()) {
            Ok(_) => {},
            Err(e) => {
                proof {
                    lemma_first_worker_decides(workers@, (k + 1) as nat, workers@.len());
                }
                return Err(e);
            },
        }
        k += 1;
    }
    Ok(())
}

// ---------------------------------------------------------------------------
// The whole configuration
// ---------------------------------------------------------------------------
pub open spec fn grant_verdict(grant: GrantConfig) -> Verdict {
    if id_verdict(grant.namespace@) is Err {
        id_verdict(grant.namespace@)
    } else if grant.token_env@.len() == 0 {
        Err(ErrorView::Config("token_env cannot be empty"@))
    } else {
        Ok(())
    }
}

pub open spec fn grants_verdict(grants: Seq<GrantConfig>, n: nat) -> Verdict
    decreases n,
{
    if n == 0 {
        Ok(())
    } else if grants_verdict(grants, (n - 1) as nat) is Err {
        grants_verdict(grants, (n - 1) as nat)
    } else {
        grant_verdict(grants[n - 1])
    }
}

/// Nonempty ID components, separated by slashes.
pub open spec fn prefix_valid(prefix: Seq<char>) -> bool {
    forall|i: int|
        0 <= i < split(prefix, '/').len() ==> valid_id(#[trigger] split(prefix, '/')[i])
}

pub open spec fn endpoint_valid(endpoint: Seq<char>, allow_http: bool) -> bool {
    "https://"@.is_prefix_of(endpoint) || (allow_http && "http://"@.is_prefix_of(endpoint))
}

pub open spec fn storage_verdict(storage: StorageConfig) -> Verdict {
    match storage {
        StorageConfig::Local { .. } => Ok(()),
        StorageConfig::S3 { bucket, region, endpoint, allow_http } => if bucket@.len() == 0
            || region@.len() == 0 {
            Err(ErrorView::Config("S3 bucket and region cannot be empty"@))
        } else if endpoint is Some && !endpoint_valid(endpoint->0@, allow_http) {
            Err(
                ErrorView::Config(
                    "S3 endpoint requires https://, or http:// with allow_http = true"@,
                ),
            )
        } else {
            Ok(())
        },
    }
}

impl IndexConfig {
    pub open spec fn valid(self) -> bool {
        &&& 1 <= self.clusters <= 1024
        &&& 1 <= self.iterations <= 50
        &&& self.max_build_bytes >= 1048576
    }
}

impl Config {
    pub open spec fn config_verdict(self) -> Verdict {
        if !(100 <= self.server.request_timeout_ms <= 3600000) {
            Err(ErrorView::Config("request_timeout_ms must be 100..3600000"@))
        } else if !(65536 <= self.database.l0_sst_bytes <= 268435456) {
            Err(ErrorView::Config("l0_sst_bytes must be 64 KiB..256 MiB"@))
        } else if self.cluster is Some && self.cluster->0.cluster_verdict() is Err {
            self.cluster->0.cluster_verdict()
        } else if self.cluster is Some && !(self.storage is S3) {
            Err(ErrorView::Config("cluster deployment requires S3 storage"@))
        } else if !self.index.valid() {
            Err(
                ErrorView::Config(
                    "index requires 1..1024 clusters, 1..50 iterations, and at least 1 MiB max_build_bytes"@,
                ),
            )
        } else if self.limits.max_documents == 0 || self.limits.max_namespace_bytes == 0
            || self.limits.max_pending_documents == 0 {
            Err(ErrorView::Config("namespace limits must be positive"@))
        } else if grants_verdict(self.auth.grants@, self.auth.grants@.len()) is Err {
            grants_verdict(self.auth.grants@, self.auth.grants@.len())
        } else if !prefix_valid(self.database.prefix@) {
            Err(
                ErrorView::Config(
                    "database.prefix must contain nonempty slash-separated ID components"@,
                ),
            )
        } else if !(1 <= self.database.wal_flush_ms <= 60000) {
            Err(ErrorView::Config("wal_flush_ms must be between 1 and 60000"@))
        } else if !(1 <= self.server.max_concurrent_queries <= 64) {
            Err(ErrorView::Config("max_concurrent_queries must be between 1 and 64"@))
        } else if self.database.cache_dir is Some && self.database.cache_bytes < 4194304 {
            Err(ErrorView::Config("cache_bytes must be at least 4 MiB"@))
        } else {
            storage_verdict(self.storage)
        }
    }

    pub fn validate(&self) -> (result: Result<()>)
        ensures
            verdict(result) == self.config_verdict(),
    {
        if self.server.request_timeout_ms < 100 || self.server.request_timeout_ms > 3600000 {
            return Err(misconfigured("request_timeout_ms must be 100..3600000"));
        }
        if self.database.l0_sst_bytes < 65536 || self.database.l0_sst_bytes > 268435456 {
            return Err(misconfigured("l0_sst_bytes must be 64 KiB..256 MiB"));
        }
        if let Some(cluster) = &self.cluster {
            match cluster.validate() {
                Ok(_) => {},
                Err(e) => return Err(e),
            }
            let remote = match &self.storage {
                StorageConfig::S3 { .. } => true,
                StorageConfig::Local { .. } => false,
            };
            if !remote {
                return Err(misconfigured("cluster deployment requires S3 storage"));
            }
        }
        if self.index.clusters == 0 || self.index.clusters > 1024 || self.index.iterations == 0
            || self.index.iterations > 50 || self.index.max_build_bytes < 1048576 {
            return Err(
                misconfigured(
                    "index requires 1..1024 clusters, 1..50 iterations, and at least 1 MiB max_build_bytes",
                ),
            );
        }
        if self.limits.max_documents == 0 || self.limits.max_namespace_bytes == 0
            || self.limits.max_pending_documents == 0 {
            return Err(misconfigured("namespace limits must be positive"));
        }
        match validate_grants(&self.auth.grants) {
            Ok(_) => {},
            Err(e) => return Err(e),
        }
        if !is_prefix_valid(self.database.prefix.as_str()) {
            return Err(
                misconfigured(
                    "database.prefix must contain nonempty slash-separated ID components",
                ),
            );
        }
        if self.database.wal_flush_ms < 1 || self.database.wal_flush_ms > 60000 {
            return Err(misconfigured("wal_flush_ms must be between 1 and 60000"));
        }
        if self.server.max_concurrent_queries < 1 || self.server.max_concurrent_queries > 64 {
            return Err(misconfigured("max_concurrent_queries must be between 1 and 64"));
        }
        if self.database.cache_dir.is_some() && self.database.cache_bytes < 4194304 {
            return Err(misconfigured("cache_bytes must be at least 4 MiB"));
        }
        validate_storage(&self.storage)
    }
}

fn validate_grants(grants: &Vec<GrantConfig>) -> (result: Result<()>)
    ensures
        verdict(result) == grants_verdict(grants@, grants@.len()),
{
    let mut i: usize = 0;
    while i < grants.len()
        invariant
            i <= grants@.len(),
            grants_verdict(grants@, i as nat) is Ok,
        decreases grants@.len() - i,
    {
        let one = match validate_id(grants[i].namespace.as_str()) {
            Ok(_) => {
                proof {
                    crate::text::lemma_encode_empty(grants@[i as int].token_env@);
                }
                if grants[i].token_env.as_str().as_bytes().len() == 0 {
                    Err(misconfigured("token_env cannot be empty"))
                } else {
                    Ok(())
                }
            },
            Err(e) => Err(e),
        };
        match one {
            Ok(_) => {},
            Err(e) => {
                proof {
                    lemma_first_grant_decides(grants@, (i + 1) as nat, grants@.len());
                }
                return Err(e);
            },
        }
        i += 1;
    }
    Ok(())
}

proof fn lemma_first_grant_decides(grants: Seq<GrantConfig>, i: nat, n: nat)
    requires
        i <= n,
        grants_verdict(grants, i) is Err,
    ensures
        grants_verdict(grants, n) == grants_verdict(grants, i),
    decreases n,
{
    if i < n {
        lemma_first_grant_decides(grants, i, (n - 1) as nat);
    }
}

fn is_prefix_valid(prefix: &str) -> (valid: bool)
    ensures
        valid == prefix_valid(prefix@),
{
    let parts = split_text(prefix, '/');
    let mut i: usize = 0;
    while i < parts.len()
        invariant
            i <= parts@.len(),
            views(parts@) == split(prefix@, '/'),
            forall|j: int| 0 <= j < i ==> valid_id(#[trigger] split(prefix@, '/')[j]),
        decreases parts@.len() - i,
    {
        assert(views(parts@)[i as int] == parts@[i as int]@);
        if !is_valid_id(parts[i].as_str()) {
            assert(!valid_id(split(prefix@, '/')[i as int]));
            return false;
        }
        i += 1;
    }
    true
}

fn validate_storage(storage: &StorageConfig) -> (result: Result<()>)
    ensures
        verdict(result) == storage_verdict(*storage),
{
    match storage {
        StorageConfig::Local { .. } => Ok(()),
        StorageConfig::S3 { bucket, region, endpoint, allow_http } => {
            proof {
                crate::text::lemma_encode_empty(bucket@);
                crate::text::lemma_encode_empty(region@);
            }
            if bucket.as_str().as_bytes().len() == 0 || region.as_str().as_bytes().len() == 0 {
                return Err(misconfigured("S3 bucket and region cannot be empty"));
            }
            if let Some(endpoint) = endpoint {
                if !(starts_with(endpoint.as_str(), "https://") || (*allow_http && starts_with(
                    endpoint.as_str(),
                    "http://",
                ))) {
                    return Err(
                        misconfigured(
                            "S3 endpoint requires https://, or http:// with allow_http = true",
                        ),
                    );
                }
            }
            Ok(())
        },
    }
}

proof fn lemma_default_prefix()
    ensures
        prefix_valid("gengis-mimi/v1"@),
{
    reveal_strlit("gengis-mimi/v1");
    let p = "gengis-mimi/v1"@;
    let a = seq!['g', 'e', 'n', 'g', 'i', 's', '-', 'm', 'i', 'm', 'i'];
    let b = seq!['v', '1'];
    assert(p =~= a + seq!['/'] + b);
    crate::text::lemma_split_two(a, b, '/');
}

// ---------------------------------------------------------------------------
// What is accepted
// ---------------------------------------------------------------------------
proof fn lemma_grants_accepted(grants: Seq<GrantConfig>, n: nat)
    requires
        n <= grants.len(),
    ensures
        grants_verdict(grants, n) is Ok <==> forall|i: int|
            0 <= i < n ==> valid_id((#[trigger] grants[i]).namespace@) && grants[i].token_env@.len()
                > 0,
    decreases n,
{
    if n > 0 {
        lemma_grants_accepted(grants, (n - 1) as nat);
        if grants_verdict(grants, n) is Ok {
            assert forall|i: int| 0 <= i < n implies valid_id((#[trigger] grants[i]).namespace@)
                && grants[i].token_env@.len() > 0 by {}
        } else if grants_verdict(grants, (n - 1) as nat) is Ok {
            assert(!(valid_id(grants[n - 1].namespace@) && grants[n - 1].token_env@.len() > 0));
        }
    }
}

proof fn lemma_workers_accepted(workers: Seq<String>, n: nat)
    requires
        n <= workers.len(),
    ensures
        workers_verdict(workers, n) is Ok <==> forall|i: int|
            0 <= i < n ==> worker_verdict((#[trigger] workers[i])@) is Ok,
    decreases n,
{
    if n > 0 {
        lemma_workers_accepted(workers, (n - 1) as nat);
        if workers_verdict(workers, n) is Ok {
            assert forall|i: int| 0 <= i < n implies worker_verdict((#[trigger] workers[i])@) is Ok by {}
        } else if workers_verdict(workers, (n - 1) as nat) is Ok {
            assert(worker_verdict(workers[n - 1]@) is Err);
        }
    }
}

/// A shard of a gateway: a valid ID that no earlier shard has, and 1 to 8 workers
/// with proper addresses.
pub open spec fn shard_accepted(shards: Seq<ShardConfig>, i: int) -> bool {
    let workers = shards[i].workers@;
    &&& valid_id(shards[i].id@)
    &&& forall|j: int| 0 <= j < i ==> (#[trigger] shards[j]).id@ != shards[i].id@
    &&& 1 <= workers.len() && workers.len() <= 8
    &&& forall|w: int| 0 <= w < workers.len() ==> worker_verdict((#[trigger] workers[w])@) is Ok
}

proof fn lemma_shards_accepted(shards: Seq<ShardConfig>, n: nat)
    requires
        n <= shards.len(),
    ensures
        shards_verdict(shards, n) is Ok <==> forall|i: int|
            0 <= i < n ==> #[trigger] shard_accepted(shards, i),
    decreases n,
{
    if n > 0 {
        let m = (n - 1) as nat;
        lemma_shards_accepted(shards, m);
        let workers = shards[n - 1].workers@;
        lemma_workers_accepted(workers, workers.len());
        assert(shard_verdict(shards, n - 1) is Ok <==> shard_accepted(shards, n - 1)) by {
            if shard_repeated(shards, n - 1) {
                let j = choose|j: int|
                    0 <= j < n - 1 && (#[trigger] shards[j]).id@ == shards[n - 1].id@;
                assert(!shard_accepted(shards, n - 1));
            }
        }
        if shards_verdict(shards, n) is Ok {
            assert forall|i: int| 0 <= i < n implies #[trigger] shard_accepted(shards, i) by {}
        }
    }
}

/// The address of a worker is a URL with nothing but a scheme, which is HTTP or
/// HTTPS, and a host: no path, query, fragment or credentials.
pub proof fn law_workers_are_origins(address: Seq<char>)
    ensures
        worker_verdict(address) is Ok <==> {
            &&& parsed_url(address) is Ok
            &&& ({
                let url = parsed_url(address)->Ok_0;
                &&& url.scheme == "http"@ || url.scheme == "https"@
                &&& url.path == "/"@ && url.query is None && url.fragment is None
                &&& url.username == Seq::<char>::empty() && url.password is None
            })
        },
        parsed_url(address) matches Err(message) ==> worker_verdict(address) == Err::<
            (),
            ErrorView,
        >(ErrorView::Config(message)),
{
    if parsed_url(address) is Ok {
        let url = parsed_url(address)->Ok_0;
        if url.username.len() == 0 {
            assert(url.username =~= Seq::<char>::empty());
        }
    }
}

/// A worker has a valid node ID and a lease of 3 to 300 seconds. A gateway has 1 to
/// 128 acceptable shards and names the variable of its upstream token.
pub proof fn law_cluster_roles_accepted(cluster: ClusterConfig)
    ensures
        cluster.cluster_verdict() is Ok <==> match cluster {
            ClusterConfig::Worker { node_id, lease_ms } => valid_id(node_id@) && 3000 <= lease_ms
                && lease_ms <= 300000,
            ClusterConfig::Gateway { shards, upstream_token_env } => {
                &&& 1 <= shards@.len() && shards@.len() <= 128
                &&& upstream_token_env@.len() > 0
                &&& forall|i: int| 0 <= i < shards@.len() ==> #[trigger] shard_accepted(shards@, i)
            },
        },
{
    if let ClusterConfig::Gateway { shards, upstream_token_env } = cluster {
        lemma_shards_accepted(shards@, shards@.len());
    }
}

/// An S3 endpoint is reached over HTTPS, or over HTTP where that is allowed.
pub proof fn law_endpoints_are_safe(rest: Seq<char>, allow_http: bool)
    ensures
        endpoint_valid("https://"@ + rest, allow_http),
        endpoint_valid("http://"@ + rest, allow_http) <==> allow_http,
        endpoint_valid(rest, allow_http) ==> "https://"@.is_prefix_of(rest)
            || "http://"@.is_prefix_of(rest),
{
    reveal_strlit("https://");
    reveal_strlit("http://");
    let secure = "https://"@ + rest;
    let open = "http://"@ + rest;
    assert(secure.take("https://"@.len() as int) =~= "https://"@);
    assert(open.take("http://"@.len() as int) =~= "http://"@);
    if "https://"@.is_prefix_of(open) {
        assert(open.take(8)[4] == open[4]);
        assert("https://"@[4] == 's' && open[4] == ':');
    }
}

/// A configuration is accepted if every setting lies in its range. Clusters need
/// S3, a cache needs 4 MiB, and S3 needs a bucket, a region and a safe endpoint.
pub proof fn law_configurations_accepted(config: Config)
    ensures
        config.config_verdict() is Ok <==> {
            &&& 100 <= config.server.request_timeout_ms
                && config.server.request_timeout_ms <= 3600000
            &&& 1 <= config.server.max_concurrent_queries
                && config.server.max_concurrent_queries <= 64
            &&& 65536 <= config.database.l0_sst_bytes && config.database.l0_sst_bytes <= 268435456
            &&& 1 <= config.database.wal_flush_ms && config.database.wal_flush_ms <= 60000
            &&& config.database.cache_dir is Some ==> config.database.cache_bytes >= 4194304
            &&& forall|i: int|
                0 <= i < split(config.database.prefix@, '/').len() ==> valid_id(
                    #[trigger] split(config.database.prefix@, '/')[i],
                )
            &&& 1 <= config.index.clusters && config.index.clusters <= 1024
            &&& 1 <= config.index.iterations && config.index.iterations <= 50
            &&& 1048576 <= config.index.max_build_bytes
            &&& config.limits.max_documents > 0
            &&& config.limits.max_namespace_bytes > 0
            &&& config.limits.max_pending_documents > 0
            &&& forall|i: int|
                0 <= i < config.auth.grants@.len() ==> valid_id(
                    (#[trigger] config.auth.grants@[i]).namespace@,
                ) && config.auth.grants@[i].token_env@.len() > 0
            &&& config.cluster is Some ==> config.storage is S3
                && config.cluster->0.cluster_verdict() is Ok
            &&& config.storage matches StorageConfig::S3 { bucket, region, endpoint, allow_http }
                ==> bucket@.len() > 0 && region@.len() > 0 && (endpoint is Some ==> endpoint_valid(
                endpoint->0@,
                allow_http,
            ))
        },
{
    lemma_grants_accepted(config.auth.grants@, config.auth.grants@.len());
}

} // verus!
