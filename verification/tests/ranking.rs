use gengis_mimi::binary::encode;
use gengis_mimi::config::IndexConfig;
use gengis_mimi::error::Error;
use gengis_mimi::index::digest;
use gengis_mimi::json::Json;
use gengis_mimi::model::{Filter, NumericRange, SearchMode};
use gengis_mimi::ranking::{ranks_before, retain, score_rows, Ranked};
use gengis_mimi::search::{
    choose_indexed_plan, filter_ids, filter_scans, hydrate, intersect, keep, key_list, must_scan,
    pending, probe_keys, rank_clusters, vector_result, Plan, Stage, Step, StoredRow, VectorSearch,
};
use gengis_mimi::textmap::TextMap;

fn set(ids: &[&str]) -> TextMap<()> {
    let mut map = TextMap::new();
    for id in ids {
        map.insert(id.to_string(), ());
    }
    map
}

fn members(map: &TextMap<()>) -> Vec<&str> {
    (0..map.len()).map(|i| map.key(i).as_str()).collect()
}

fn strings(ids: &[&str]) -> Vec<String> {
    ids.iter().map(|id| id.to_string()).collect()
}

fn ranked(hits: &[(&str, f64)]) -> Vec<Ranked> {
    hits.iter().map(|(id, score)| Ranked { id: id.to_string(), score: score.to_bits() }).collect()
}

fn shown(best: &[Ranked]) -> Vec<(&str, f64)> {
    best.iter().map(|hit| (hit.id.as_str(), f64::from_bits(hit.score))).collect()
}

fn unrestricted() -> Filter {
    Filter { eq: TextMap::new(), range: TextMap::new() }
}

#[test]
fn the_best_hits_do_not_depend_on_their_order() {
    let hits = [("c", 1.0), ("a", 2.0), ("b", 2.0), ("d", -0.0), ("e", 0.0), ("f", 3.0)];
    let expected = [("f", 3.0), ("a", 2.0), ("b", 2.0), ("c", 1.0)];
    for shift in 0..hits.len() {
        let mut best = Vec::new();
        for i in 0..hits.len() {
            let (id, score) = hits[(i + shift) % hits.len()];
            retain(&mut best, id.to_string(), f64::to_bits(score), 4);
        }
        assert_eq!(shown(&best), expected);
        let ids: Vec<String> = hits.iter().map(|(id, _)| id.to_string()).collect();
        let scores = hits.iter().map(|(_, score)| score.to_bits()).collect();
        let mut together = Vec::new();
        score_rows(&mut together, &ids, &scores, 4);
        assert_eq!(shown(&together), expected);
    }
    let mut zeros = Vec::new();
    score_rows(&mut zeros, &strings(&["a", "b"]), &vec![(-0.0f64).to_bits(), 0], 2);
    assert_eq!(zeros[0].id, "b");
}

#[test]
fn equal_scores_sort_by_id() {
    let hits = ranked(&[("a", 1.0), ("b", 1.0), ("b", 0.5)]);
    assert!(ranks_before(&hits[0], &hits[1]));
    assert!(!ranks_before(&hits[1], &hits[0]));
    assert!(ranks_before(&hits[1], &hits[2]));
    assert!(!ranks_before(&hits[0], &hits[0]));
    let mut none = Vec::new();
    retain(&mut none, "a".into(), 0, 0);
    assert!(none.is_empty());
}

#[test]
fn clusters_are_probed_best_first() {
    let scores = [0.5f64, 2.0, 0.5, 3.0].iter().map(|s| s.to_bits()).collect();
    let order = rank_clusters(&scores);
    assert_eq!(order, [3, 1, 0, 2]);
    let blocks = vec![1, 0, 1, 2];
    assert_eq!(
        probe_keys("p/", &order, &blocks, 3),
        ["p/v/0003/00000000", "p/v/0003/00000001", "p/v/0000/00000000"]
    );
    assert_eq!(probe_keys("p/", &order, &blocks, 1024).len(), 4);
}

#[test]
fn only_changes_after_the_watermark_are_pending() {
    let row = |key: &[u8], revision: u64| StoredRow {
        key: key.to_vec(),
        value: revision.to_le_bytes().to_vec(),
    };
    let rows = vec![row(b"c/n/a", 4), row(b"c/n/b", 5), row(b"c/n/c", 6)];
    assert_eq!(members(&pending(&rows, "c/n/", 4).unwrap()), ["b", "c"]);
    let bad = vec![row(b"c/n/\xff", 9)];
    assert!(matches!(pending(&bad, "c/n/", 4), Err(Error::Corrupt(m)) if m == "invalid change ID"));
    assert!(pending(&bad, "c/n/", 9).unwrap().is_empty());
    let short = vec![StoredRow { key: b"c/n/a".to_vec(), value: vec![1] }];
    assert!(matches!(pending(&short, "c/n/", 4), Err(Error::Corrupt(m)) if m == "invalid revision"));
}

#[test]
fn filters_become_scans_and_their_lists_intersect() {
    let mut filter = unrestricted();
    filter.eq.insert("b".into(), Json::Null);
    filter.eq.insert("a".into(), Json::Bool(true));
    let bounds = NumericRange { gte: Some(1.0f64.to_bits()), lte: Some((-0.0f64).to_bits()) };
    filter.range.insert("n".into(), bounds);
    filter.range.insert("m".into(), NumericRange { gte: None, lte: Some(0) });
    filter.range.insert("o".into(), NumericRange { gte: Some(0), lte: None });
    let encoded = vec![b"true".to_vec(), b"null".to_vec()];
    let scans = filter_scans("p/", &filter, &encoded);
    let digests: Vec<String> = ["a", "b", "m", "n", "o"].iter().map(|f| digest(f.as_bytes())).collect();
    assert_eq!(scans.len(), 5);
    assert_eq!(scans[0].prefix, format!("p/e/{}/{}/", digests[0], digest(b"true")));
    assert_eq!((scans[0].low.as_str(), scans[0].high.is_none()), ("", true));
    assert_eq!(scans[1].prefix, format!("p/e/{}/{}/", digests[1], digest(b"null")));
    assert_eq!(scans[2].prefix, format!("p/r/{}/", digests[2]));
    assert_eq!(scans[2].low, "");
    assert_eq!(scans[2].high.as_deref(), Some("8000000000000000~"));
    assert_eq!(scans[3].low, "bff0000000000000");
    assert_eq!(scans[3].high.as_deref(), Some("8000000000000000~"));
    assert_eq!(scans[4].low, "8000000000000000");
    assert_eq!(scans[4].high.as_deref(), Some("~"));

    assert!(filter_ids(&Vec::new()).is_none());
    let lists = vec![strings(&["c", "a", "b", "a"]), strings(&["b", "c", "d"])];
    assert_eq!(members(&filter_ids(&lists).unwrap()), ["b", "c"]);
    let mut common = None;
    intersect(&mut common, set(&["a", "b"]));
    assert_eq!(members(common.as_ref().unwrap()), ["a", "b"]);
    intersect(&mut common, set(&["b", "c"]));
    assert_eq!(members(common.as_ref().unwrap()), ["b"]);
    assert_eq!(members(&keep(&set(&["a", "b"]), &set(&["b"]), false)), ["a"]);
    assert_eq!(members(&keep(&set(&["a", "b"]), &set(&["b"]), true)), ["b"]);
    assert_eq!(key_list(&set(&["b", "a"])), ["a", "b"]);
}

#[test]
fn the_plan_follows_the_mode_the_index_and_the_filter() {
    assert!(must_scan(SearchMode::Exact, true));
    for mode in [SearchMode::Auto, SearchMode::Ann] {
        assert!(must_scan(mode, false));
        assert!(!must_scan(mode, true));
    }
    let threshold = IndexConfig::default().filter_scan_threshold;
    assert_eq!(choose_indexed_plan(&None, threshold), Plan::CentroidAnn);
    assert_eq!(choose_indexed_plan(&Some(set(&["a", "b"])), 2), Plan::FilteredExact);
    assert_eq!(choose_indexed_plan(&Some(set(&["a", "b"])), 1), Plan::CentroidAnn);
    let names = [Plan::ExactScan, Plan::FilteredExact, Plan::CentroidAnn].map(|p| p.name());
    assert_eq!(names, ["exact_scan", "filtered_exact", "centroid_ann"]);
}

#[test]
fn a_selective_search_visits_the_listed_and_then_the_changed_documents() {
    let dirty = set(&["b", "d"]);
    let mut search = VectorSearch::indexed(2, dirty, Some(set(&["a", "b", "c"])), 10);
    assert_eq!(search.plan, Plan::FilteredExact);
    let mut next = || search.next("p/", &vec![], &vec![], 4);
    assert!(matches!(next(), Step::Listed(ids) if ids == ["a", "c"]));
    assert!(matches!(next(), Step::Changed(ids) if ids == ["b", "d"]));
    assert!(matches!(next(), Step::Finish));
    assert_eq!(search.stage, Stage::Done);
    assert_eq!(search.listed(), ["a", "c"]);
}

#[test]
fn a_cluster_search_drops_stale_and_unselected_rows() {
    let mut search = VectorSearch::indexed(2, set(&["b"]), Some(set(&["a", "b"])), 1);
    let order = vec![0];
    let blocks = vec![1];
    assert!(matches!(search.next("p/", &order, &blocks, 4),
        Step::Blocks(keys) if keys == ["p/v/0000/00000000"]));
    let row = |id: &str| (id.to_string(), vec![1.0f32.to_bits()]);
    let rows = vec![row("a"), row("b"), row("c")];
    let block = encode(&rows);
    let kept = search.visit_block(&gengis_mimi::binary::decode(&block).unwrap());
    assert_eq!(kept, [row("a")]);
    assert_eq!(search.scanned, 3);
    assert!(matches!(search.next("p/", &order, &blocks, 4), Step::Changed(ids) if ids == ["b"]));
    assert!(!search.visit(&unrestricted(), None));
    assert!(search.visit(&unrestricted(), Some(&TextMap::new())));
    assert_eq!(search.scanned, 5);
}

#[test]
fn a_scan_visits_every_document_once() {
    let mut search = VectorSearch::scan_all(1);
    assert!(matches!(search.next("", &vec![], &vec![], 4), Step::Scan));
    search.count();
    search.offer(&strings(&["a", "b"]), &vec![1.0f64.to_bits(), 2.0f64.to_bits()]);
    assert!(matches!(search.next("", &vec![], &vec![], 4), Step::Finish));
    assert_eq!(shown(&search.best), [("b", 2.0)]);
    let result = vector_result(search, vec![Some(TextMap::new())], 7, 6).unwrap();
    assert_eq!((result.plan.as_str(), result.scanned_documents), ("exact_scan", 1));
    assert_eq!((result.revision, result.indexed_revision), (7, 6));
    assert_eq!(result.matches[0].id, "b");
}

#[test]
fn hits_without_a_document_are_corruption() {
    let hits = hydrate(ranked(&[("a", 1.0)]), vec![Some(TextMap::new())]).unwrap();
    assert_eq!((hits[0].id.as_str(), f64::from_bits(hits[0].score)), ("a", 1.0));
    let result = hydrate(ranked(&[("a", 1.0), ("b", 0.5)]), vec![Some(TextMap::new()), None]);
    assert!(matches!(result, Err(Error::Corrupt(m)) if m == "index references a missing document"));
}
