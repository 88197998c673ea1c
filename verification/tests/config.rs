use gengis_mimi::config::{
    default_lease, default_region, AuthConfig, ClusterConfig, Config, DatabaseConfig, GrantConfig,
    IndexConfig, LimitsConfig, ServerConfig, ShardConfig, StorageConfig,
};
use gengis_mimi::error::Error;

fn s3(endpoint: Option<&str>, allow_http: bool) -> StorageConfig {
    StorageConfig::S3 {
        bucket: "bucket".into(),
        region: default_region(),
        endpoint: endpoint.map(String::from),
        allow_http,
    }
}

fn refused(config: &Config, expected: &str) {
    match config.validate() {
        Err(Error::Config(message)) => assert_eq!(message, expected),
        _ => panic!("expected a configuration error"),
    }
}

fn gateway(shards: Vec<ShardConfig>, env: &str) -> Config {
    Config {
        storage: s3(None, false),
        cluster: Some(ClusterConfig::Gateway { shards, upstream_token_env: env.into() }),
        ..Config::default()
    }
}

fn shard(id: &str, workers: &[&str]) -> ShardConfig {
    ShardConfig { id: id.into(), workers: workers.iter().map(|w| w.to_string()).collect() }
}

#[test]
fn the_default_configuration_is_local_and_valid() {
    let config = Config::default();
    config.validate().unwrap();
    assert_eq!(config.server.bind, "127.0.0.1:7878");
    assert_eq!(config.server.max_concurrent_queries, 4);
    assert_eq!(config.server.request_timeout_ms, 30_000);
    assert!(matches!(config.storage, StorageConfig::Local { ref path } if path == "./data"));
    assert_eq!(config.database.prefix, "gengis-mimi/v1");
    assert_eq!(config.database.wal_flush_ms, 100);
    assert_eq!(config.database.cache_bytes, 512 * 1024 * 1024);
    assert_eq!(config.database.l0_sst_bytes, 16 * 1024 * 1024);
    assert!(!config.database.migrate && config.database.cache_dir.is_none());
    assert_eq!((config.index.interval_ms, config.index.clusters), (5000, 32));
    assert_eq!((config.index.iterations, config.index.filter_scan_threshold), (4, 4096));
    assert_eq!(config.index.max_build_bytes, 512 * 1024 * 1024);
    assert_eq!(config.limits.max_documents, 1_000_000);
    assert_eq!(config.limits.max_namespace_bytes, 16 * 1024 * 1024 * 1024);
    assert_eq!(config.limits.max_pending_documents, 50_000);
    assert!(config.auth.grants.is_empty() && config.cluster.is_none());
    assert_eq!((default_region().as_str(), default_lease()), ("us-east-1", 9000));
}

#[test]
fn server_and_database_settings_have_bounds() {
    for request_timeout_ms in [99, 3_600_001] {
        let server = ServerConfig { request_timeout_ms, ..ServerConfig::default() };
        refused(
            &Config { server, ..Config::default() },
            "request_timeout_ms must be 100..3600000",
        );
    }
    for max_concurrent_queries in [0, 65] {
        let server = ServerConfig { max_concurrent_queries, ..ServerConfig::default() };
        refused(
            &Config { server, ..Config::default() },
            "max_concurrent_queries must be between 1 and 64",
        );
    }
    for l0_sst_bytes in [64 * 1024 - 1, 256 * 1024 * 1024 + 1] {
        let database = DatabaseConfig { l0_sst_bytes, ..DatabaseConfig::default() };
        refused(
            &Config { database, ..Config::default() },
            "l0_sst_bytes must be 64 KiB..256 MiB",
        );
    }
    for wal_flush_ms in [0, 60_001] {
        let database = DatabaseConfig { wal_flush_ms, ..DatabaseConfig::default() };
        refused(
            &Config { database, ..Config::default() },
            "wal_flush_ms must be between 1 and 60000",
        );
    }
    for prefix in ["", "/a", "a//b", "a/", "a b"] {
        let database = DatabaseConfig { prefix: prefix.into(), ..DatabaseConfig::default() };
        refused(
            &Config { database, ..Config::default() },
            "database.prefix must contain nonempty slash-separated ID components",
        );
    }
    let cache = |cache_bytes| DatabaseConfig {
        cache_dir: Some("cache".into()),
        cache_bytes,
        ..DatabaseConfig::default()
    };
    let database = cache(4 * 1024 * 1024 - 1);
    refused(&Config { database, ..Config::default() }, "cache_bytes must be at least 4 MiB");
    Config { database: cache(4 * 1024 * 1024), ..Config::default() }.validate().unwrap();
}

#[test]
fn index_limits_and_grants_have_bounds() {
    let message = "index requires 1..1024 clusters, 1..50 iterations, and at least 1 MiB max_build_bytes";
    for index in [
        IndexConfig { clusters: 0, ..IndexConfig::default() },
        IndexConfig { clusters: 1025, ..IndexConfig::default() },
        IndexConfig { iterations: 0, ..IndexConfig::default() },
        IndexConfig { iterations: 51, ..IndexConfig::default() },
        IndexConfig { max_build_bytes: 1024 * 1024 - 1, ..IndexConfig::default() },
    ] {
        refused(&Config { index, ..Config::default() }, message);
    }
    for limits in [
        LimitsConfig { max_documents: 0, ..LimitsConfig::default() },
        LimitsConfig { max_namespace_bytes: 0, ..LimitsConfig::default() },
        LimitsConfig { max_pending_documents: 0, ..LimitsConfig::default() },
    ] {
        refused(&Config { limits, ..Config::default() }, "namespace limits must be positive");
    }
    let grant = |namespace: &str, token_env: &str| AuthConfig {
        grants: vec![GrantConfig {
            namespace: namespace.into(),
            token_env: token_env.into(),
            write: false,
        }],
    };
    let auth = grant("demo", "");
    refused(&Config { auth, ..Config::default() }, "token_env cannot be empty");
    let auth = grant("a/b", "TOKEN");
    assert!(matches!(Config { auth, ..Config::default() }.validate(), Err(Error::Invalid(_))));
}

#[test]
fn s3_storage_needs_a_safe_endpoint() {
    let valid = |storage| Config { storage, ..Config::default() }.validate();
    valid(s3(None, false)).unwrap();
    valid(s3(Some("https://host"), false)).unwrap();
    valid(s3(Some("http://host"), true)).unwrap();
    for (endpoint, allow_http) in [("http://host", false), ("ftp://host", true), ("host", true)] {
        refused(
            &Config { storage: s3(Some(endpoint), allow_http), ..Config::default() },
            "S3 endpoint requires https://, or http:// with allow_http = true",
        );
    }
    let storage = StorageConfig::S3 {
        bucket: String::new(),
        region: default_region(),
        endpoint: None,
        allow_http: false,
    };
    refused(
        &Config { storage, ..Config::default() },
        "S3 bucket and region cannot be empty",
    );
}

#[test]
fn cluster_roles_are_validated() {
    let worker = |node_id: &str, lease_ms| Config {
        storage: s3(None, false),
        cluster: Some(ClusterConfig::Worker { node_id: node_id.into(), lease_ms }),
        ..Config::default()
    };
    worker("a1", 9000).validate().unwrap();
    refused(&worker("a1", 2999), "lease_ms must be 3000..300000");
    refused(&worker("a1", 300_001), "lease_ms must be 3000..300000");
    assert!(matches!(worker("", 9000).validate(), Err(Error::Invalid(_))));
    let local = Config { storage: StorageConfig::default(), ..worker("a1", 9000) };
    refused(&local, "cluster deployment requires S3 storage");

    let good = &["http://127.0.0.1:1", "https://host/"];
    gateway(vec![shard("a", good), shard("b", good)], "T").validate().unwrap();
    let message = "gateway requires 1..128 shards and an upstream token environment variable";
    refused(&gateway(vec![], "T"), message);
    refused(&gateway(vec![shard("a", good)], ""), message);
    let many = (0..129).map(|i| shard(&format!("s{i}"), good)).collect();
    refused(&gateway(many, "T"), message);
    let message = "shard IDs must be unique, each with 1..8 workers";
    refused(&gateway(vec![shard("a", good), shard("a", good)], "T"), message);
    refused(&gateway(vec![shard("a", &[])], "T"), message);
    refused(&gateway(vec![shard("a", &["http://h"; 9])], "T"), message);
}

#[test]
fn worker_addresses_are_plain_origins() {
    for address in [
        "ftp://host",
        "http://host/path",
        "http://host?q=1",
        "http://host#f",
        "http://user@host",
        "http://:secret@host",
    ] {
        refused(
            &gateway(vec![shard("a", &[address])], "T"),
            "worker addresses must be HTTP(S) origins",
        );
    }
    let config = gateway(vec![shard("a", &["not an address"])], "T");
    refused(&config, "relative URL without a base");
}
