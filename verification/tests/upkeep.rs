use gengis_mimi::error::Error;
use gengis_mimi::keys::KeyOp;
use gengis_mimi::listing::{
    check_document, check_namespace, collect_page, decide_creation, indexer_action, next_page,
    validate_creation, IndexerAction,
};
use gengis_mimi::maintenance::{
    check_cache_identity, check_cache_path, check_ready, current_format, decide_format,
    deletion_intent, erase_marks, erase_prefixes, format_key, intent_name, is_covered,
    is_obsolete, migrating_format, restoring_format, retire_changes, stage, FormatAction, Sweep,
};
use gengis_mimi::model::{Metric, Namespace, NamespaceConfig, NamespaceStats, PageRequest};

fn config(dimensions: Option<usize>) -> NamespaceConfig {
    NamespaceConfig { dimensions, metric: Metric::Cosine, text_fields: vec![] }
}

fn strings(items: &[&str]) -> Vec<String> {
    items.iter().map(|item| item.to_string()).collect()
}

#[test]
fn batches_close_at_one_mebibyte() {
    let op = |size: usize| KeyOp { key: "k".into(), value: Some(vec![0; size - 1]) };
    let (full, last) = stage(vec![op(1 << 20), op(1 << 19), op(1 << 19), op(5)]);
    assert_eq!(full.iter().map(Vec::len).collect::<Vec<_>>(), [1, 2]);
    assert_eq!(last.len(), 1);
    let (full, last) = stage(vec![op((1 << 20) - 1)]);
    assert_eq!((full.len(), last.len()), (0, 1));
}

#[test]
fn removals_are_committed_a_thousand_at_a_time() {
    let mut sweep = Sweep::new();
    let mut full = Vec::new();
    for i in 0..2500 {
        if let Some(batch) = sweep.remove(format!("g/n/old/{i:05}")) {
            full.push(batch);
        }
    }
    assert_eq!(full.iter().map(Vec::len).collect::<Vec<_>>(), [1000, 1000]);
    assert_eq!(full[1][0].key, "g/n/old/01000");
    assert!(full[1][0].value.is_none());
    assert_eq!(sweep.pending.len(), 500);
    assert_eq!(sweep.pending[499].key, "g/n/old/02499");
}

#[test]
fn cleanup_keeps_the_active_generation_and_newer_changes() {
    assert!(is_obsolete("g/n/old/l/a", "g/n/new/"));
    assert!(!is_obsolete("g/n/new/l/a", "g/n/new/"));
    assert!(is_covered(&5u64.to_le_bytes(), 5).unwrap());
    assert!(!is_covered(&6u64.to_le_bytes(), 5).unwrap());
    assert!(is_covered(&[1], 5).is_err());
    let keys = strings(&["c/n/a", "c/n/b", "c/n/c"]);
    let values = vec![
        Some(4u64.to_le_bytes().to_vec()),
        None,
        Some(6u64.to_le_bytes().to_vec()),
    ];
    let stats = NamespaceStats { revision: 6, documents: 2, bytes: 9, pending_documents: 2 };
    let (ops, after) = retire_changes(&keys, &values, &stats, 5).unwrap();
    assert_eq!(ops.len(), 1);
    assert_eq!((ops[0].key.as_str(), ops[0].value.is_none()), ("c/n/a", true));
    assert_eq!(after, NamespaceStats { pending_documents: 1, ..stats });
    let broken = vec![None, None, Some(vec![0])];
    assert!(matches!(retire_changes(&keys, &broken, &stats, 5),
        Err(Error::Corrupt(m)) if m == "invalid revision"));
}

#[test]
fn deletion_hides_the_namespace_before_it_erases() {
    let intent = deletion_intent("n");
    let keys: Vec<(&str, Option<&[u8]>)> =
        intent.iter().map(|op| (op.key.as_str(), op.value.as_deref())).collect();
    assert_eq!(keys, [("n/n", None), ("z/n", Some(&b"delete"[..]))]);
    assert_eq!(erase_prefixes("n"), ["d/n/", "v/n/", "c/n/", "g/n/"]);
    let marks = erase_marks("n");
    assert!(marks.iter().all(|op| op.value.is_none()));
    let keys: Vec<&str> = marks.iter().map(|op| op.key.as_str()).collect();
    assert_eq!(keys, ["i/n", "s/n", "z/n", "j/n"]);
    assert_eq!(intent_name(b"z/demo").unwrap(), "demo");
    assert!(matches!(intent_name(b"z/\xff"), Err(Error::Corrupt(m)) if m == "invalid deletion marker"));
}

#[test]
fn the_format_marker_decides_how_a_database_opens() {
    assert_eq!(format_key(), "meta/format");
    assert_eq!(current_format(), b"gengis-mimi:2");
    assert_eq!(migrating_format(), b"gengis-mimi:migrating:1:2");
    assert_eq!(restoring_format(), b"gengis-mimi:restoring:2");
    let decide = |marker: &[u8], migrate| decide_format(&Some(marker.to_vec()), migrate, false);
    for migrate in [false, true] {
        assert_eq!(decide(b"gengis-mimi:2", migrate).unwrap(), FormatAction::Ready);
        for marker in [&b"gengis-mimi:restoring:2"[..], b"gengis-mimi:3", b""] {
            assert!(matches!(decide(marker, migrate), Err(Error::Config(m))
                if m == "unsupported storage format; use the migrate command for a v1 database"));
        }
    }
    for marker in [&b"gengis-mimi:1"[..], b"gengis-mimi:migrating:1:2"] {
        assert_eq!(decide(marker, true).unwrap(), FormatAction::Migrate);
        assert!(decide(marker, false).is_err());
    }
    assert_eq!(decide_format(&None, false, true).unwrap(), FormatAction::Initialize);
    assert!(matches!(decide_format(&None, true, false), Err(Error::Config(m))
        if m == "database prefix contains an unrecognized keyspace"));
}

#[test]
fn only_a_complete_open_database_is_ready() {
    check_ready(false, &Some(current_format())).unwrap();
    assert!(matches!(check_ready(true, &Some(current_format())), Err(Error::Unavailable)));
    assert!(matches!(check_ready(false, &Some(restoring_format())), Err(Error::Unavailable)));
    assert!(matches!(check_ready(false, &None), Err(Error::Unavailable)));
}

#[test]
fn a_cache_is_separate_and_belongs_to_one_database() {
    let path = |parts: &[&str]| strings(parts);
    check_cache_path(&path(&["a", "cache"]), &path(&["a", "data"])).unwrap();
    check_cache_path(&path(&["a", "data2"]), &path(&["a", "data"])).unwrap();
    for (cache, data) in [
        (&["a", "data"][..], &["a", "data"][..]),
        (&["a", "data", "cache"], &["a", "data"]),
        (&["a"], &["a", "data"]),
    ] {
        assert!(matches!(check_cache_path(&path(cache), &path(data)), Err(Error::Config(m))
            if m == "cache and durable data directories must not overlap"));
    }
    assert!(check_cache_identity(&None, b"id").unwrap());
    assert!(!check_cache_identity(&Some(b"id".to_vec()), b"id").unwrap());
    assert!(matches!(check_cache_identity(&Some(b"other".to_vec()), b"id"), Err(Error::Config(m))
        if m == "cache belongs to a different storage configuration; choose a new cache_dir"));
}

#[test]
fn names_are_valid_and_present() {
    check_namespace("demo", true).unwrap();
    assert!(matches!(check_namespace("demo", false),
        Err(Error::NotFound(m)) if m == "namespace 'demo' not found"));
    assert!(matches!(check_namespace("../demo", false), Err(Error::Invalid(_))));
    check_document("a", true).unwrap();
    assert!(matches!(check_document("a", false),
        Err(Error::NotFound(m)) if m == "document 'a' not found"));
}

#[test]
fn a_schema_is_immutable() {
    validate_creation("demo", &config(Some(2))).unwrap();
    assert!(validate_creation("a/b", &config(Some(2))).is_err());
    assert!(validate_creation("demo", &config(Some(0))).is_err());
    assert!(decide_creation(&config(Some(2)), None).unwrap());
    let existing = Namespace { name: "demo".into(), config: config(Some(2)) };
    assert!(!decide_creation(&config(Some(2)), Some(&existing)).unwrap());
    assert!(matches!(decide_creation(&config(Some(3)), Some(&existing)),
        Err(Error::Conflict(m)) if m == "namespace configuration is immutable"));
}

#[test]
fn pages_follow_one_another_without_gaps() {
    let ids = strings(&["a", "b", "c", "d", "e"]);
    let mut request = PageRequest { limit: 2, after: None };
    let mut seen = Vec::new();
    loop {
        let rest: Vec<String> =
            ids.iter().filter(|id| request.after.as_ref().is_none_or(|a| *id > a)).cloned().collect();
        let page = collect_page(rest.clone(), &rest, request.limit);
        seen.extend(page.items);
        match next_page(request, page.next_cursor) {
            Some(next) => request = next,
            None => break,
        }
    }
    assert_eq!(seen, ids);
    let exact = collect_page(ids.clone(), &ids, 5);
    assert_eq!((exact.items.len(), exact.next_cursor), (5, None));
}

#[test]
fn the_indexer_rebuilds_what_has_changed() {
    let stats = |pending_documents| NamespaceStats { pending_documents, ..NamespaceStats::default() };
    assert_eq!(indexer_action(Some(&stats(1))), IndexerAction::Rebuild);
    assert_eq!(indexer_action(Some(&stats(0))), IndexerAction::ResumeCleanup);
    assert_eq!(indexer_action(None), IndexerAction::ResumeCleanup);
}
