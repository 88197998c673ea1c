use gengis_mimi::access::{equal_token, is_token, path_segments, Access};
use gengis_mimi::cluster::{
    check_topology, check_upstream, export_url, forgets_owner, forward_url, judge_worker,
    listing_url, merge_pages, owner_fresh, ready_url, route, shard_for, topology_path,
    worker_origin, Route,
};
use gengis_mimi::config::{AuthConfig, GrantConfig, ShardConfig};
use gengis_mimi::error::{Error, Result};
use gengis_mimi::index::digest;
use gengis_mimi::metrics::{
    class_label, escape, metric_name_of, prometheus, status_class, Label, MetricSample,
    MetricValue,
};
use gengis_mimi::model::{Namespace, NamespaceConfig, Page};

fn grants(list: &[(&str, bool)]) -> AuthConfig {
    AuthConfig {
        grants: list
            .iter()
            .map(|(namespace, write)| GrantConfig {
                namespace: namespace.to_string(),
                token_env: format!("TOKEN_{namespace}"),
                write: *write,
            })
            .collect(),
    }
}

fn status(result: Result<()>) -> u16 {
    match result {
        Ok(()) => 200,
        Err(error) => error.into_response().0,
    }
}

#[test]
fn scoped_tokens_are_confined_to_their_namespace() {
    let config = grants(&[("demo", false), ("other", true)]);
    let values = vec![Some("reader".to_string()), Some("writer".to_string())];
    let access = Access::load(Some("admin".into()), &config, &values).unwrap();
    let ask = |method: &str, path: &str, token: &str| status(access.authorize(method, path, token));
    assert_eq!(ask("DELETE", "/v1/namespaces/demo", "Bearer admin"), 200);
    assert_eq!(ask("GET", "/v1/export", "Bearer admin"), 200);
    assert_eq!(ask("GET", "/v1/namespaces/demo", ""), 401);
    assert_eq!(ask("GET", "/v1/namespaces/demo", "Bearer nobody"), 401);
    assert_eq!(ask("GET", "/v1/namespaces/demo", "admin"), 401);
    for path in ["/v1/namespaces/demo", "/namespaces/demo/documents/a"] {
        assert_eq!(ask("GET", path, "Bearer reader"), 200);
    }
    for path in ["/v1/namespaces/demo/query", "/namespaces/demo/search"] {
        assert_eq!(ask("POST", path, "Bearer reader"), 200);
    }
    for (method, path) in [
        ("POST", "/v1/namespaces/demo/write"),
        ("POST", "/v1/namespaces/demo/index"),
        ("POST", "/v1/namespaces/demo/query/x"),
        ("DELETE", "/v1/namespaces/demo"),
        ("GET", "/v1/namespaces/other"),
        ("GET", "/v1/namespaces"),
        ("GET", "/v1/metrics"),
        ("GET", "/v1/export"),
    ] {
        assert_eq!(ask(method, path, "Bearer reader"), 403);
    }
    assert_eq!(ask("POST", "/v1/namespaces/other/write", "Bearer writer"), 200);
    assert_eq!(ask("POST", "/v1/namespaces/demo/write", "Bearer writer"), 403);
    let open = Access::admin(None);
    assert_eq!(status(open.authorize("DELETE", "/v1/namespaces/demo", "")), 200);
}

#[test]
fn tokens_are_printable_and_required() {
    assert!(is_token("a-B~!"));
    for token in ["", "a b", "tab\t", "é", "\u{7f}"] {
        assert!(!is_token(token));
    }
    let config = grants(&[("demo", false)]);
    let load = |admin: Option<&str>, value: Option<&str>| {
        Access::load(admin.map(String::from), &config, &vec![value.map(String::from)])
    };
    assert!(load(Some("admin"), Some("t")).is_ok());
    assert!(matches!(load(Some("admin"), None),
        Err(Error::Config(m)) if m == "missing token environment variable TOKEN_demo"));
    assert!(matches!(load(Some("admin"), Some("a b")),
        Err(Error::Config(m)) if m == "tokens must be nonempty printable ASCII without spaces"));
    assert!(matches!(load(None, Some("t")),
        Err(Error::Config(m)) if m == "namespace grants require an admin API token"));
    check_upstream("UP", &Some("t".into())).unwrap();
    assert!(matches!(check_upstream("UP", &None), Err(Error::Config(m)) if m == "missing UP"));
    assert!(matches!(check_upstream("UP", &Some(String::new())),
        Err(Error::Config(m)) if m == "upstream token must be printable ASCII without spaces"));
    assert!(equal_token("Bearer x", "Bearer x"));
    for other in ["Bearer y", "Bearer ", "Bearer xx", ""] {
        assert!(!equal_token("Bearer x", other));
    }
    assert_eq!(path_segments("//v1/namespaces/a/"), ["v1", "namespaces", "a"]);
    assert!(path_segments("/").is_empty());
}

fn shard(id: &str) -> ShardConfig {
    ShardConfig { id: id.into(), workers: vec![format!("http://{id}")] }
}

#[test]
fn placement_depends_on_shard_ids_alone() {
    let shards = [shard("a"), shard("b"), shard("c")];
    let mut used = std::collections::BTreeSet::new();
    for i in 0..100 {
        let name = format!("ns{i}");
        let chosen = shard_for(&name, &shards).unwrap();
        let best = ["a", "b", "c"]
            .into_iter()
            .max_by_key(|id| digest(format!("{name}/{id}").as_bytes()))
            .unwrap();
        assert_eq!(chosen.id, best);
        let reordered = [shard("c"), shard("a"), shard("b")];
        assert_eq!(shard_for(&name, &reordered).unwrap().id, best);
        // Removing another shard moves nothing.
        let without: Vec<ShardConfig> =
            ["a", "b", "c"].into_iter().filter(|id| *id == best || *id == "a").map(shard).collect();
        assert_eq!(shard_for(&name, &without).unwrap().id, best);
        used.insert(best);
    }
    assert_eq!(used.len(), 3);
    assert!(shard_for("x", &[]).is_none());
}

#[test]
fn removing_a_shard_moves_nothing_that_it_does_not_hold() {
    let shards = [shard("a"), shard("b"), shard("b"), shard("c")];
    for i in 0..50 {
        let name = format!("ns{i}");
        let chosen = &shard_for(&name, &shards).unwrap().id;
        for removed in 0..shards.len() {
            if shards[removed].id != *chosen {
                let mut fewer: Vec<ShardConfig> =
                    ["a", "b", "b", "c"].into_iter().map(shard).collect();
                fewer.remove(removed);
                assert_eq!(shard_for(&name, &fewer).unwrap().id, *chosen);
            }
        }
    }
}

#[test]
fn requests_are_routed_by_namespace() {
    assert!(matches!(route("GET", "/v1/namespaces"), Ok(Route::Listing)));
    assert!(matches!(route("POST", "/v1/namespaces/demo/write"), Ok(Route::Namespace(n)) if n == "demo"));
    assert!(matches!(route("POST", "/v1/namespaces"),
        Err(Error::Invalid(m)) if m == "namespace required"));
    assert!(matches!(route("GET", "/v1/namespaces/a.b"), Err(Error::Invalid(_))));
    for path in ["/v1/metrics", "/", "/healthz"] {
        assert!(matches!(route("GET", path), Err(Error::NotFound(m))
            if m == "gateway route not found; metrics and backups are per worker"));
    }
    assert_eq!(worker_origin("http://host///"), "http://host");
    assert_eq!(worker_origin("http://host"), "http://host");
    assert_eq!(ready_url("http://host"), "http://host/readyz");
    assert_eq!(listing_url("http://h", 5, &None), "http://h/v1/namespaces?limit=5");
    assert_eq!(export_url("http://h:1//"), "http://h:1/v1/export");
    assert_eq!(
        listing_url("http://h", 5, &Some("a".into())),
        "http://h/v1/namespaces?limit=5&after=a"
    );
    assert_eq!(forward_url("http://h", "/v1/x?y"), "http://h/v1/x?y");
}

#[test]
fn owners_are_pinned_and_forgotten_after_failures() {
    let some = |s: &str| Some(s.to_string());
    assert!(judge_worker(&some("id"), &None).unwrap());
    assert!(judge_worker(&some("id"), &some("id")).unwrap());
    assert!(!judge_worker(&None, &some("id")).unwrap());
    assert!(matches!(judge_worker(&some("x"), &some("id")),
        Err(Error::Config(m)) if m == "worker database identity differs from shard topology"));
    assert!(owner_fresh(5, 1_000_000_004));
    assert!(!owner_fresh(5, 1_000_000_005));
    assert!(forgets_owner(None));
    assert!(forgets_owner(Some(503)));
    assert!(!forgets_owner(Some(404)));
    assert_eq!(topology_path("p"), "p/coordination/topology.json");
    check_topology(b"{}", b"{}").unwrap();
    assert!(matches!(check_topology(b"{}", b"[]"), Err(Error::Config(m))
        if m == "gateway topology differs from stored placement; migrate data before changing shards"));
}

fn listing(names: &[&str], more: bool) -> Page<Namespace> {
    Page {
        items: names
            .iter()
            .map(|name| Namespace { name: name.to_string(), config: NamespaceConfig::default() })
            .collect(),
        next_cursor: if more { names.last().map(|n| n.to_string()) } else { None },
    }
}

#[test]
fn merged_listings_are_ordered_and_skip_nothing() {
    let names = |page: &Page<Namespace>| -> Vec<String> {
        page.items.iter().map(|n| n.name.clone()).collect()
    };
    let page = merge_pages(vec![listing(&["b", "d"], false), listing(&["a", "c"], true)], 3);
    assert_eq!(names(&page), ["a", "b", "c"]);
    assert_eq!(page.next_cursor.as_deref(), Some("c"));
    let page = merge_pages(vec![listing(&["b"], false), listing(&["a"], false)], 3);
    assert_eq!(names(&page), ["a", "b"]);
    assert_eq!(page.next_cursor, None);
    let page = merge_pages(vec![listing(&[], false)], 3);
    assert!(page.items.is_empty() && page.next_cursor.is_none());
}

#[test]
fn metrics_are_exposed_as_prometheus_text() {
    let label = |key: &str, value: &str| Label { key: key.into(), value: value.into() };
    let samples = vec![
        MetricSample {
            name: "gm.http-requests".into(),
            labels: vec![label("class", "2xx"), label("path", "a\"\\\n")],
            value: MetricValue::Counter(7),
        },
        MetricSample { name: "g".into(), labels: vec![], value: MetricValue::Gauge(-3) },
        MetricSample { name: "u".into(), labels: vec![], value: MetricValue::UpDownCounter(i64::MIN) },
        MetricSample {
            name: "h".into(),
            labels: vec![label("k", "v")],
            value: MetricValue::Histogram {
                count: 3,
                sum: "1.5".into(),
                boundaries: vec!["0.1".into(), "1".into()],
                bucket_counts: vec![1, 0, 2],
            },
        },
    ];
    let expected = "gm_http_requests{class=\"2xx\",path=\"a\\\"\\\\\\n\"} 7\n\
        g -3\n\
        u -9223372036854775808\n\
        h_count{k=\"v\"} 3\n\
        h_sum{k=\"v\"} 1.5\n\
        h_bucket{k=\"v\",le=\"0.1\"} 1\n\
        h_bucket{k=\"v\",le=\"1\"} 1\n\
        h_bucket{k=\"v\",le=\"+Inf\"} 3\n\
        gm_durable_sequence 9\n";
    assert_eq!(prometheus(&samples, 9), expected);
    assert_eq!(metric_name_of("a.b-c_d"), "a_b_c_d");
    assert_eq!(escape("line\nquote\" back\\"), "line\\nquote\\\" back\\\\");
    let classes: Vec<usize> = [0, 100, 199, 200, 404, 503, 700].map(status_class).to_vec();
    assert_eq!(classes, [0, 0, 0, 1, 3, 4, 4]);
    assert_eq!(class_label(5), "5xx");
}
