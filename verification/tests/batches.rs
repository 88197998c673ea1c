use gengis_mimi::config::LimitsConfig;
use gengis_mimi::engine::{
    check_counters, plan_write, validate_batch, with_counters, DocumentForm, Prior,
};
use gengis_mimi::error::{Error, Result};
use gengis_mimi::json::Json;
use gengis_mimi::model::{Document, Metric, NamespaceConfig, NamespaceStats, WriteRequest};
use gengis_mimi::textmap::TextMap;

const NOTHING: Prior = Prior { document: None, vector: None, changed: false };

fn document(id: &str, vector: Option<&[f32]>) -> Document {
    Document {
        id: id.into(),
        vector: vector.map(|v| v.iter().map(|c| c.to_bits()).collect()),
        attributes: TextMap::new(),
    }
}

fn request(upsert: Vec<Document>, delete: &[&str]) -> WriteRequest {
    WriteRequest { upsert, delete: delete.iter().map(|id| id.to_string()).collect() }
}

fn form(serialized: usize) -> DocumentForm {
    DocumentForm { serialized, encoded: b"doc".to_vec() }
}

fn schema() -> NamespaceConfig {
    NamespaceConfig { dimensions: Some(1), metric: Metric::Dot, text_fields: vec![] }
}

fn message<T>(result: Result<T>) -> String {
    match result {
        Err(Error::Invalid(message)) => message,
        _ => panic!("expected an invalid request"),
    }
}

#[test]
fn batches_have_between_one_and_a_thousand_distinct_ids() {
    validate_batch("demo", &request(vec![document("a", None)], &["b"])).unwrap();
    let ids: Vec<String> = (0..1001).map(|i| format!("d{i}")).collect();
    let ids: Vec<&str> = ids.iter().map(|id| id.as_str()).collect();
    validate_batch("demo", &request(vec![], &ids[..1000])).unwrap();
    let bounds = "batch requires 1–1000 operations";
    assert_eq!(message(validate_batch("demo", &request(vec![], &[]))), bounds);
    assert_eq!(message(validate_batch("demo", &request(vec![], &ids))), bounds);
    let once = "a document ID may occur only once per batch";
    let both = request(vec![document("a", None)], &["a"]);
    assert_eq!(message(validate_batch("demo", &both)), once);
    let twice = request(vec![document("a", None), document("a", None)], &[]);
    assert_eq!(message(validate_batch("demo", &twice)), once);
    assert!(validate_batch("../demo", &request(vec![], &["a"])).is_err());
    assert!(validate_batch("demo", &request(vec![], &["a/b"])).is_err());
}

#[test]
fn an_accepted_batch_has_exact_operations_and_counters() {
    let request = request(vec![document("a", Some(&[1.0])), document("b", None)], &["c"]);
    let forms = vec![form(10), form(10)];
    let priors = vec![
        Prior { document: Some(7), vector: Some(5), changed: true },
        NOTHING,
        Prior { document: Some(4), vector: None, changed: false },
    ];
    let stats = NamespaceStats { revision: 8, documents: 2, bytes: 20, pending_documents: 1 };
    assert!(check_counters(&stats, &request, &forms, &priors));
    let limits = LimitsConfig::default();
    let plan = plan_write("demo", &schema(), &stats, &request, &forms, &priors, &limits).unwrap();
    // A block of one single-component vector has 24 bytes.
    let expected =
        NamespaceStats { revision: 9, documents: 2, bytes: 20 - 12 - 4 + 24 + 3 + 3, pending_documents: 3 };
    assert_eq!(plan.stats, expected);
    let result = plan.acknowledge(77);
    assert_eq!((result.upserted, result.deleted, result.sequence, result.revision), (2, 1, 77, 9));
    let ops = with_counters(plan.ops, "demo", b"stats".to_vec());
    let mut keys: Vec<(&str, bool)> =
        ops.iter().map(|op| (op.key.as_str(), op.value.is_some())).collect();
    keys.sort();
    assert_eq!(
        keys,
        [
            ("c/demo/a", true),
            ("c/demo/b", true),
            ("c/demo/c", true),
            ("d/demo/a", true),
            ("d/demo/b", true),
            ("d/demo/c", false),
            ("s/demo", true),
            ("v/demo/a", true),
            ("v/demo/b", false),
            ("v/demo/c", false),
        ]
    );
    assert_eq!(ops.last().unwrap().key, "s/demo");
    let change = ops.iter().find(|op| op.key == "c/demo/c").unwrap();
    assert_eq!(change.value.as_deref(), Some(&9u64.to_le_bytes()[..]));
}

fn plan(
    stats: NamespaceStats,
    document: Document,
    form: DocumentForm,
    limits: LimitsConfig,
) -> Result<()> {
    let request = request(vec![document], &[]);
    let forms = vec![form];
    let priors = vec![NOTHING];
    assert!(check_counters(&stats, &request, &forms, &priors));
    plan_write("demo", &schema(), &stats, &request, &forms, &priors, &limits).map(|_| ())
}

#[test]
fn oversized_documents_and_batches_are_refused() {
    let limits = LimitsConfig::default();
    let stats = NamespaceStats::default();
    plan(stats, document("a", None), form(256 * 1024), limits).unwrap();
    assert_eq!(
        message(plan(stats, document("a", None), form(256 * 1024 + 1), limits)),
        "serialized document exceeds 256 KiB"
    );
    let mut wide = document("a", None);
    for i in 0..65 {
        wide.attributes.insert(format!("f{i}"), Json::Null);
    }
    assert_eq!(message(plan(stats, wide, form(1), limits)), "at most 64 attributes per document");
    assert!(plan(stats, document("a", Some(&[1.0, 2.0])), form(1), limits).is_err());
    let many: Vec<Document> = (0..33).map(|i| document(&format!("d{i}"), None)).collect();
    let forms: Vec<DocumentForm> = (0..33).map(|_| form(256 * 1024)).collect();
    let priors = vec![NOTHING; 33];
    let request = request(many, &[]);
    let result = plan_write("demo", &schema(), &stats, &request, &forms, &priors, &limits);
    assert_eq!(message(result), "batch exceeds 8 MiB");
}

#[test]
fn quotas_bound_documents_bytes_and_pending_changes() {
    let stats = NamespaceStats { revision: 1, documents: 3, bytes: 3, pending_documents: 3 };
    let generous = LimitsConfig { max_documents: 4, max_namespace_bytes: 6, max_pending_documents: 4 };
    plan(stats, document("a", None), form(3), generous).unwrap();
    for limits in [
        LimitsConfig { max_documents: 3, ..generous },
        LimitsConfig { max_namespace_bytes: 5, ..generous },
        LimitsConfig { max_pending_documents: 3, ..generous },
    ] {
        let result = plan(stats, document("a", None), form(3), limits);
        assert!(matches!(result, Err(Error::Limit(m))
            if m == "namespace document, byte, or pending-index quota exceeded"));
    }
    let last = NamespaceStats { revision: u64::MAX, ..stats };
    let result = plan(last, document("a", None), form(3), generous);
    assert!(matches!(result, Err(Error::Limit(m)) if m == "revision exhausted"));
}

#[test]
fn counters_that_do_not_cover_the_stored_data_are_noticed() {
    let request = request(vec![], &["a"]);
    let priors = vec![Prior { document: Some(9), vector: None, changed: true }];
    let low = NamespaceStats { revision: 1, documents: 1, bytes: 8, pending_documents: 1 };
    assert!(!check_counters(&low, &request, &Vec::new(), &priors));
    let none = NamespaceStats { documents: 0, bytes: 9, ..low };
    assert!(!check_counters(&none, &request, &Vec::new(), &priors));
    let right = NamespaceStats { bytes: 9, ..low };
    assert!(check_counters(&right, &request, &Vec::new(), &priors));
}
