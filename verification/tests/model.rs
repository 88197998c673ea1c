use gengis_mimi::error::Error;
use gengis_mimi::json::{Json, Number};
use gengis_mimi::model::{
    contains_text, default_probes, default_top_k, is_valid_id, validate_id, Filter, Metric,
    NamespaceConfig, NumericRange, PageRequest, QueryRequest, SearchMode, TextQuery,
    MAX_BODY_BYTES, MAX_DOCUMENT_BYTES,
};
use gengis_mimi::textmap::TextMap;

fn message<T>(result: Result<T, Error>) -> String {
    match result {
        Err(Error::Invalid(message)) => message,
        _ => panic!("expected an invalid request"),
    }
}

fn config(dimensions: Option<usize>, metric: Metric, fields: &[&str]) -> NamespaceConfig {
    NamespaceConfig {
        dimensions,
        metric,
        text_fields: fields.iter().map(|f| f.to_string()).collect(),
    }
}

fn bits(vector: &[f32]) -> Vec<u32> {
    vector.iter().map(|v| v.to_bits()).collect()
}

fn no_filter() -> Filter {
    Filter { eq: TextMap::new(), range: TextMap::new() }
}

fn range(gte: Option<f64>, lte: Option<f64>) -> NumericRange {
    NumericRange { gte: gte.map(f64::to_bits), lte: lte.map(f64::to_bits) }
}

#[test]
fn ids_are_short_and_url_safe() {
    for id in ["a", "A-z_09", &"x".repeat(128)] {
        assert!(is_valid_id(id));
        validate_id(id).unwrap();
    }
    for id in ["", "a/b", "../demo", "a b", "é", "a.b", "\0", &"x".repeat(129)] {
        assert!(!is_valid_id(id));
        assert_eq!(
            message(validate_id(id)),
            "IDs must contain 1–128 ASCII letters, digits, underscores, or hyphens"
        );
    }
}

#[test]
fn schemas_are_bounded() {
    assert_eq!((MAX_BODY_BYTES, MAX_DOCUMENT_BYTES), (8 * 1024 * 1024, 256 * 1024));
    NamespaceConfig::default().validate().unwrap();
    config(Some(1), Metric::Dot, &[]).validate().unwrap();
    config(Some(4096), Metric::Dot, &["title", "body"]).validate().unwrap();
    for dimensions in [0, 4097] {
        assert_eq!(
            message(config(Some(dimensions), Metric::Dot, &[]).validate()),
            "dimensions must be between 1 and 4096"
        );
    }
    assert!(config(None, Metric::Dot, &["a", "a"]).validate().is_err());
    assert!(config(None, Metric::Dot, &["a b"]).validate().is_err());
    let names: Vec<String> = (0..17).map(|i| format!("f{i}")).collect();
    let fields: Vec<&str> = names.iter().map(|n| n.as_str()).collect();
    assert!(config(None, Metric::Dot, &fields).validate().is_err());
    config(None, Metric::Dot, &fields[..16]).validate().unwrap();
}

#[test]
fn schemas_are_compared_whole() {
    let a = config(Some(2), Metric::Cosine, &["t"]);
    assert!(a.equals(&config(Some(2), Metric::Cosine, &["t"])));
    assert!(!a.equals(&config(Some(3), Metric::Cosine, &["t"])));
    assert!(!a.equals(&config(None, Metric::Cosine, &["t"])));
    assert!(!a.equals(&config(Some(2), Metric::Dot, &["t"])));
    assert!(!a.equals(&config(Some(2), Metric::Cosine, &["u"])));
    assert!(!a.equals(&config(Some(2), Metric::Cosine, &[])));
}

#[test]
fn vectors_match_their_schema() {
    let cosine = config(Some(2), Metric::Cosine, &[]);
    cosine.validate_vector(&bits(&[0.0, 1.0])).unwrap();
    for vector in [&[1.0][..], &[1.0, f32::INFINITY], &[f32::NAN, 0.0]] {
        assert_eq!(
            message(cosine.validate_vector(&bits(vector))),
            "vector must have 2 finite f32 components"
        );
    }
    assert_eq!(
        message(cosine.validate_vector(&bits(&[0.0, -0.0]))),
        "cosine vectors must have nonzero length"
    );
    config(Some(2), Metric::Dot, &[]).validate_vector(&bits(&[0.0, -0.0])).unwrap();
    assert_eq!(
        message(NamespaceConfig::default().validate_vector(&bits(&[1.0]))),
        "namespace has no vector dimensions"
    );
}

#[test]
fn filters_are_bounded_and_ordered() {
    let mut filter = no_filter();
    assert!(filter.is_unrestricted());
    for i in 0..64 {
        filter.eq.insert(format!("f{i}"), Json::Null);
    }
    filter.validate().unwrap();
    filter.range.insert("r".into(), range(Some(0.0), None));
    assert_eq!(message(filter.validate()), "at most 64 filter predicates are allowed");
    for bounds in [
        range(None, None),
        range(Some(f64::NAN), None),
        range(None, Some(f64::INFINITY)),
        range(Some(2.0), Some(1.0)),
    ] {
        let mut filter = no_filter();
        filter.range.insert("r".into(), bounds);
        assert!(!filter.is_unrestricted());
        assert_eq!(
            message(filter.validate()),
            "ranges require finite, ordered gte and/or lte bounds"
        );
    }
    let mut filter = no_filter();
    filter.range.insert("r".into(), range(Some(-0.0), Some(0.0)));
    filter.validate().unwrap();
}

#[test]
fn filters_match_exact_values_and_inclusive_ranges() {
    let mut attributes = TextMap::new();
    attributes.insert("n".into(), Json::Number(Number::PosInt(3)));
    attributes.insert("null".into(), Json::Null);
    attributes.insert("text".into(), Json::Text("x".into()));
    let eq = |field: &str, value: Json| {
        let mut filter = no_filter();
        filter.eq.insert(field.into(), value);
        filter.matches(&attributes)
    };
    assert!(no_filter().matches(&attributes));
    assert!(eq("null", Json::Null));
    assert!(!eq("missing", Json::Null));
    assert!(eq("n", Json::Number(Number::PosInt(3))));
    assert!(!eq("n", Json::Number(Number::Float(3.0f64.to_bits()))));
    let within = |field: &str, gte, lte| {
        let mut filter = no_filter();
        filter.range.insert(field.into(), range(gte, lte));
        filter.matches(&attributes)
    };
    assert!(within("n", Some(3.0), Some(3.0)));
    assert!(within("n", None, Some(3.5)));
    assert!(!within("n", Some(3.5), None));
    assert!(!within("text", Some(0.0), None));
    assert!(!within("missing", Some(0.0), None));
    let mut both = no_filter();
    both.eq.insert("null".into(), Json::Null);
    both.range.insert("n".into(), range(Some(4.0), None));
    assert!(!both.matches(&attributes));
}

#[test]
fn queries_are_validated_against_the_schema() {
    assert_eq!((default_top_k(), default_probes()), (10, 4));
    let schema = config(Some(1), Metric::Dot, &["title"]);
    let query = |top_k, probes| QueryRequest {
        vector: bits(&[1.0]),
        top_k,
        filter: no_filter(),
        mode: SearchMode::default(),
        probes,
    };
    query(1, 1).validate(&schema).unwrap();
    query(100, 1024).validate(&schema).unwrap();
    for bad in [query(0, 1), query(101, 1), query(1, 0), query(1, 1025)] {
        assert_eq!(message(bad.validate(&schema)), "top_k must be 1..100 and probes 1..1024");
    }
    let text = |field: &str, text: &str, top_k| TextQuery {
        field: field.into(),
        text: text.into(),
        top_k,
        filter: no_filter(),
    };
    text("title", &"x".repeat(4096), 100).validate(&schema).unwrap();
    assert_eq!(
        message(text("body", "x", 1).validate(&schema)),
        "field is not in namespace text_fields"
    );
    for bad in [text("title", "x", 0), text("title", "x", 101), text("title", &"x".repeat(4097), 1)] {
        assert_eq!(
            message(bad.validate(&schema)),
            "top_k must be 1..100 and text at most 4096 bytes"
        );
    }
    assert!(contains_text(&schema.text_fields, "title"));
    assert!(!contains_text(&schema.text_fields, "titl"));
}

#[test]
fn pages_are_bounded() {
    let page = PageRequest::default();
    assert_eq!((page.limit, page.after.is_none()), (100, true));
    page.validate().unwrap();
    for limit in [0, 1001] {
        let page = PageRequest { limit, after: None };
        assert_eq!(message(page.validate()), "limit must be between 1 and 1000");
    }
    PageRequest { limit: 1000, after: Some("a".into()) }.validate().unwrap();
    assert!(PageRequest { limit: 1, after: Some("a/b".into()) }.validate().is_err());
}
