use gengis_mimi::bm25::{query_terms, TextSearch};
use gengis_mimi::config::IndexConfig;
use gengis_mimi::error::Error;
use gengis_mimi::index::{
    admit_input, block_key_of, build_generation, check_output, cluster_block_key_of,
    cluster_count, digest, equality_key, equality_list_key, field_prefix, initial_centroid,
    lengths_key_of, nearest, new_generation, per_block, range_list_key, term_list_key,
    term_prefix, Corpus, EntryValue, Training,
};
use gengis_mimi::json::{Json, Number};
use gengis_mimi::keys::KeyOp;
use gengis_mimi::model::{Document, Filter, Metric, NamespaceConfig};
use gengis_mimi::postings::Posting;
use gengis_mimi::terms::{document_terms, tokenize, Terms};
use gengis_mimi::textmap::TextMap;

const ABC: &str = "ba7816bf8f01cfea414140de5dae2223b00361a396177a9cb410ff61f20015ad";

fn frequencies(terms: &Terms) -> Vec<(String, u32)> {
    let map = &terms.frequencies;
    (0..map.len()).map(|i| (map.key(i).clone(), *map.value(i))).collect()
}

#[test]
fn digests_are_lowercase_sha_256() {
    assert_eq!(digest(b"abc"), ABC);
    assert_eq!(equality_key(b"abc"), ABC);
    assert_eq!(
        digest(b""),
        "e3b0c44298fc1c149afbf4c8996fb92427ae41e4649b934ca495991b7852b855"
    );
}

#[test]
fn index_keys_have_their_documented_form() {
    assert_eq!(field_prefix("g/n/1/", 'e', "abc"), format!("g/n/1/e/{ABC}/"));
    assert_eq!(equality_list_key("p/", "abc", b"abc"), format!("p/e/{ABC}/{ABC}"));
    assert_eq!(
        range_list_key("p/", "abc", 1.0f64.to_bits()),
        format!("p/r/{ABC}/bff0000000000000")
    );
    assert_eq!(term_list_key("p/", "abc", "abc"), format!("p/t/{ABC}/{ABC}"));
    assert_eq!(term_prefix("p/", "abc", "abc"), format!("p/t/{ABC}/{ABC}/"));
    assert_eq!(block_key_of("list", 7), "list/00000007");
    assert_eq!(cluster_block_key_of("p/", 12, 345), "p/v/0012/00000345");
    assert_eq!(lengths_key_of("p/", "id"), "p/l/id");
}

#[test]
fn generations_have_fresh_names() {
    let (a, b) = (new_generation(), new_generation());
    assert_ne!(a, b);
    for name in [a, b] {
        assert_eq!(name.len(), 32);
        assert!(name.chars().all(|c| c.is_ascii_digit() || ('a'..='f').contains(&c)));
        assert_eq!(&name[12..13], "4");
    }
}

#[test]
fn text_splits_into_lowercase_alphanumeric_tokens() {
    let terms = tokenize("Rust, storage—STORAGE! ÄÖ 42 x_y");
    assert_eq!(terms.length, 7);
    let expected = [("42", 1), ("rust", 1), ("storage", 2), ("x", 1), ("y", 1), ("äö", 1)];
    let expected: Vec<(String, u32)> =
        expected.iter().map(|(t, n)| (t.to_string(), *n)).collect();
    assert_eq!(frequencies(&terms), expected);
    assert_eq!(tokenize("...").length, 0);
    assert_eq!(tokenize("").frequencies.len(), 0);
    assert_eq!(frequencies(&tokenize("½ ٣")), [("½".to_string(), 1), ("٣".to_string(), 1)]);
}

#[test]
fn tokens_of_joined_texts_add_up_and_ascii_case_is_ignored() {
    let texts = ["", "Rust storage", "a, B a", "ÄÖ x_y", "..."];
    for a in texts {
        for b in texts {
            for separator in [" ", "-", "\n"] {
                let joined = tokenize(&format!("{a}{separator}{b}"));
                let (first, second) = (tokenize(a), tokenize(b));
                assert_eq!(joined.length, first.length + second.length);
                for i in 0..joined.frequencies.len() {
                    let term = joined.frequencies.key(i);
                    let of = |terms: &Terms| terms.frequencies.get(term).copied().unwrap_or(0);
                    assert_eq!(of(&joined), of(&first) + of(&second));
                }
            }
        }
    }
    for text in ["Rust storage", "a, B a", "x_Y 42"] {
        let (upper, plain) = (tokenize(&text.to_ascii_uppercase()), tokenize(text));
        assert_eq!(upper.length, plain.length);
        assert_eq!(frequencies(&upper), frequencies(&plain));
    }
}

#[test]
fn queries_have_one_to_thirty_two_terms() {
    assert_eq!(query_terms("a b a").unwrap().frequencies.len(), 2);
    let words: Vec<String> = (0..33).map(|i| format!("w{i}")).collect();
    assert_eq!(query_terms(&words[..32].join(" ")).unwrap().length, 32);
    for text in ["", "?!", &words.join(" ")] {
        assert!(matches!(query_terms(text), Err(Error::Invalid(m))
            if m == "text query requires 1..32 distinct terms"));
    }
}

fn document(id: &str, vector: Option<Vec<f32>>, body: Option<&str>, rank: u64) -> Document {
    let mut attributes = TextMap::new();
    if let Some(body) = body {
        attributes.insert("body".into(), Json::Text(body.into()));
    }
    attributes.insert("rank".into(), Json::Number(Number::PosInt(rank)));
    Document {
        id: id.into(),
        vector: vector.map(|v| v.iter().map(|c| c.to_bits()).collect()),
        attributes,
    }
}

#[test]
fn only_declared_text_fields_are_searchable() {
    let fields = vec!["body".to_string(), "rank".to_string(), "none".to_string()];
    let terms = document_terms(&document("a", None, Some("one two"), 3), &fields);
    assert_eq!(terms.len(), 1);
    assert_eq!((terms.key(0).as_str(), terms.value(0).length), ("body", 2));
    assert!(document_terms(&document("a", None, None, 3), &fields).is_empty());
}

#[test]
fn a_generation_lists_vectors_lengths_attributes_and_terms() {
    let documents = vec![
        document("a", Some(vec![1.0]), Some("storage engine storage"), 5),
        document("b", Some(vec![2.0]), None, 5),
        document("c", None, Some("engine"), 6),
    ];
    let encoded: Vec<Vec<Vec<u8>>> = vec![
        vec![b"\"storage engine storage\"".to_vec(), b"5".to_vec()],
        vec![b"5".to_vec()],
        vec![b"\"engine\"".to_vec(), b"6".to_vec()],
    ];
    let schema = NamespaceConfig {
        dimensions: Some(1),
        metric: Metric::Dot,
        text_fields: vec!["body".into()],
    };
    let config = IndexConfig { clusters: 2, ..IndexConfig::default() };
    let training = Training {
        centroids: vec![vec![1.0f32.to_bits()], vec![2.0f32.to_bits()]],
        assignment: vec![1, 0],
    };
    let (status, entries) = build_generation(
        "demo",
        "gen".into(),
        &schema,
        4,
        &documents,
        &encoded,
        training,
        &config,
    );
    assert_eq!((status.generation.as_str(), status.revision), ("gen", 4));
    assert_eq!((status.documents, status.vectors), (3, 2));
    assert_eq!(status.cluster_blocks, [1, 1]);
    assert_eq!(status.text.get("body"), Some(&Corpus { documents: 2, tokens: 4 }));
    let find = |key: &str| {
        let found: Vec<&EntryValue> =
            entries.iter().filter(|e| e.key == key).map(|e| &e.value).collect();
        assert_eq!(found.len(), 1, "{key}");
        found[0]
    };
    let prefix = "g/demo/gen/";
    assert!(matches!(find("g/demo/gen/v/0001/00000000"), EntryValue::Vectors(bytes)
        if gengis_mimi::binary::decode(bytes).unwrap()[0].0 == "a"));
    assert!(matches!(find("g/demo/gen/v/0000/00000000"), EntryValue::Vectors(_)));
    assert!(matches!(find("g/demo/gen/l/a"), EntryValue::Lengths(fields)
        if fields.get("body").unwrap().length == 3));
    assert!(entries.iter().all(|e| e.key != "g/demo/gen/l/b"));
    let five = block_key_of(&equality_list_key(prefix, "rank", b"5"), 0);
    assert!(matches!(find(&five), EntryValue::Ids(ids) if ids == &["a", "b"]));
    let six = block_key_of(&range_list_key(prefix, "rank", 6.0f64.to_bits()), 0);
    assert!(matches!(find(&six), EntryValue::Ids(ids) if ids == &["c"]));
    let engine = block_key_of(&term_list_key(prefix, "body", "engine"), 0);
    match find(&engine) {
        EntryValue::Postings(items) => {
            let items: Vec<(&str, u32, u32)> =
                items.iter().map(|p| (p.id.as_str(), p.frequency, p.length)).collect();
            assert_eq!(items, [("a", 1, 3), ("c", 1, 1)]);
        }
        _ => panic!("a term lists postings"),
    }
    let storage = block_key_of(&term_list_key(prefix, "body", "storage"), 0);
    assert!(matches!(find(&storage), EntryValue::Postings(items) if items[0].frequency == 2));
    assert_eq!(entries.len(), 2 + 2 + 2 + 2 + 2 + 2);
}

#[test]
fn lists_are_cut_into_blocks_of_256() {
    let documents: Vec<Document> =
        (0..300).map(|i| document(&format!("d{i:03}"), None, None, 1)).collect();
    let encoded: Vec<Vec<Vec<u8>>> = documents.iter().map(|_| vec![b"1".to_vec()]).collect();
    let training = Training { centroids: vec![], assignment: vec![] };
    let schema = NamespaceConfig::default();
    let config = IndexConfig::default();
    let (status, entries) =
        build_generation("n", "g".into(), &schema, 1, &documents, &encoded, training, &config);
    assert_eq!((status.vectors, status.centroids.len()), (0, 0));
    let list = equality_list_key("g/n/g/", "rank", b"1");
    let sizes: Vec<usize> = (0..2)
        .map(|b| match &entries.iter().find(|e| e.key == block_key_of(&list, b)).unwrap().value {
            EntryValue::Ids(ids) => ids.len(),
            _ => 0,
        })
        .collect();
    assert_eq!(sizes, [256, 44]);
    assert_eq!(entries.len(), 4);
}

#[test]
fn block_and_cluster_sizes() {
    assert_eq!(per_block(None), 128);
    assert_eq!(per_block(Some(2)), 128);
    assert_eq!(per_block(Some(1536)), 41);
    assert_eq!(per_block(Some(4096)), 15);
    assert_eq!((cluster_count(32, 5), cluster_count(3, 5), cluster_count(3, 0)), (5, 3, 0));
    let spread: Vec<usize> = (0..4).map(|i| initial_centroid(i, 4, 10)).collect();
    assert_eq!(spread, [0, 2, 5, 7]);
}

#[test]
fn builds_stay_within_their_budget() {
    let config = IndexConfig { max_build_bytes: 8000, ..IndexConfig::default() };
    assert_eq!(admit_input(0, 100, Some(2), &config).unwrap(), 364);
    assert_eq!(admit_input(364, 380, None, &config).unwrap(), 1000);
    assert!(matches!(admit_input(364, 381, None, &config), Err(Error::Limit(m))
        if m == "index input exceeds build memory budget; raise index.max_build_bytes or partition data"));
    let ops = |size| vec![KeyOp { key: "k".into(), value: Some(vec![0; size]) }];
    check_output(&ops(7999), &config).unwrap();
    assert!(matches!(check_output(&ops(8000), &config), Err(Error::Limit(m))
        if m == "index output exceeds index.max_build_bytes"));
}

fn unrestricted() -> Filter {
    Filter { eq: TextMap::new(), range: TextMap::new() }
}

fn gathered(search: &TextSearch) -> Vec<(usize, Vec<(String, u32, u32)>)> {
    search
        .term_matches()
        .into_iter()
        .map(|term| {
            let rows = term.matches.into_iter().map(|p| (p.id, p.frequency, p.length)).collect();
            (term.documents, rows)
        })
        .collect()
}

#[test]
fn a_lagging_index_with_its_changes_equals_a_scan() {
    let old = [("a", "red red blue"), ("b", "blue"), ("c", "green")];
    let new = [("a", "blue green"), ("c", "green"), ("d", "red")];
    let attributes = |body: &str| document("x", None, Some(body), 1).attributes;
    let terms = query_terms("red blue").unwrap();
    let filter = unrestricted();
    let mut scan = TextSearch::scan(&terms, &filter);
    for (id, body) in new {
        scan.add_text_document(id, &attributes(body), "body", &filter);
    }
    let mut text = TextMap::new();
    text.insert("body".to_string(), Corpus { documents: 3, tokens: 5 });
    let mut dirty = TextMap::new();
    for id in ["a", "b", "d"] {
        dirty.insert(id.to_string(), ());
    }
    let mut overlaid = TextSearch::indexed(&terms, &text, "body", &None, &dirty);
    let posting = |id: &str, frequency, length| Posting { id: id.into(), frequency, length };
    overlaid.load("blue", &vec![posting("a", 1, 3), posting("b", 1, 1)], &dirty);
    overlaid.load("red", &vec![posting("a", 2, 3)], &dirty);
    for id in ["a", "b", "d"] {
        let counted = old.iter().find(|(i, _)| *i == id).map(|(_, body)| {
            let mut fields = TextMap::new();
            fields.insert("body".to_string(), tokenize(body));
            fields
        });
        let current = new.iter().find(|(i, _)| *i == id).map(|(_, body)| attributes(body));
        overlaid.overlay(id, counted.as_ref(), current.as_ref(), "body", &filter);
    }
    assert_eq!(overlaid.corpus, scan.corpus);
    assert_eq!(scan.corpus, Corpus { documents: 3, tokens: 4 });
    assert_eq!(gathered(&overlaid), gathered(&scan));
    assert_eq!(gathered(&scan), [
        (1, vec![("a".to_string(), 1, 2)]),
        (1, vec![("d".to_string(), 1, 1)]),
    ]);
}

#[test]
fn filters_restrict_matches_without_changing_statistics() {
    let terms = query_terms("word").unwrap();
    let mut filter = unrestricted();
    filter.eq.insert("rank".into(), Json::Number(Number::PosInt(1)));
    let mut scan = TextSearch::scan(&terms, &filter);
    for (id, rank) in [("a", 1), ("b", 2)] {
        let attributes = document(id, None, Some("word"), rank).attributes;
        scan.add_text_document(id, &attributes, "body", &filter);
    }
    assert_eq!(scan.corpus, Corpus { documents: 2, tokens: 2 });
    assert_eq!(gathered(&scan), [(2, vec![("a".to_string(), 1, 1)])]);
    let mut selected = TextMap::new();
    selected.insert("a".to_string(), ());
    selected.insert("b".to_string(), ());
    let mut dirty = TextMap::new();
    dirty.insert("b".to_string(), ());
    let indexed = TextSearch::indexed(&terms, &TextMap::new(), "body", &Some(selected), &dirty);
    assert_eq!(indexed.corpus, Corpus::default());
    assert!(indexed.eligible.as_ref().unwrap().contains("a"));
    assert!(!indexed.eligible.as_ref().unwrap().contains("b"));
}

#[test]
fn repeated_query_terms_gather_the_same() {
    let filter = unrestricted();
    let search = |query: &str| {
        let mut scan = TextSearch::scan(&query_terms(query).unwrap(), &filter);
        for (id, body) in [("a", "red red blue"), ("b", "blue")] {
            let attributes = document(id, None, Some(body), 1).attributes;
            scan.add_text_document(id, &attributes, "body", &filter);
        }
        gathered(&scan)
    };
    assert_eq!(search("red blue"), search("Blue red BLUE red blue"));
    assert_eq!(search("red"), [(1, vec![("a".to_string(), 2, 3)])]);
}

#[test]
fn a_vector_joins_the_last_of_its_nearest_clusters() {
    let of = |scores: &[f64]| nearest(&scores.iter().map(|score| score.to_bits()).collect());
    assert_eq!(of(&[]), 0);
    assert_eq!(of(&[-4.0, -1.0, -9.0]), 1);
    assert_eq!(of(&[-1.0, -2.0, -1.0]), 2);
    assert_eq!(of(&[0.0, -0.0]), 0);
}
