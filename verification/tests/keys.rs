use std::sync::Arc;

use gengis_mimi::double::{at_least, is_finite_double, is_finite_single, is_zero_single, number_key, total_greater};
use gengis_mimi::error::Error;
use gengis_mimi::keys::{
    batch, change_key, delete, document_key, document_prefix, is_batchable, mark_key, member_key,
    member_prefix, namespace_key, put, revision, root, vector_key, KeyOp,
};
use gengis_mimi::engine::stored_revision;
use slatedb::object_store::memory::InMemory;
use slatedb::Db;

#[test]
fn keys_have_their_documented_form() {
    assert_eq!(namespace_key("demo"), "n/demo");
    assert_eq!(document_prefix("demo"), "d/demo/");
    assert_eq!(document_key("demo", "a-1"), "d/demo/a-1");
    assert_eq!(vector_key("demo", "a"), "v/demo/a");
    assert_eq!(change_key("demo", "a"), "c/demo/a");
    assert_eq!(root("demo", "0f"), "g/demo/0f/");
    assert_eq!(mark_key('z', "demo"), "z/demo");
    assert_eq!(member_prefix('g', "demo"), "g/demo/");
    assert_eq!(member_key('l', "demo", "x"), "l/demo/x");
}

#[test]
fn keys_of_one_namespace_never_lie_under_a_prefix_of_another() {
    let names = ["demo", "demo_extra", "dem", "demo-", "d"];
    for a in names {
        for b in names {
            let key = document_key(a, "id");
            assert_eq!(key.starts_with(&document_prefix(b)), a == b);
        }
    }
}

#[test]
fn revisions_are_eight_little_endian_bytes() {
    assert_eq!(stored_revision(0x0102), [2, 1, 0, 0, 0, 0, 0, 0]);
    assert_eq!(revision(&stored_revision(u64::MAX)).unwrap(), u64::MAX);
    for bytes in [&[][..], &[1; 7], &[1; 9]] {
        assert!(matches!(revision(bytes), Err(Error::Corrupt(m)) if m == "invalid revision"));
    }
}

#[test]
fn number_keys_sort_like_their_numbers() {
    let numbers = [
        f64::NEG_INFINITY, -1e300, -2.0, -1.5, -1e-310, 0.0, 1e-310, 0.1, 1.0, 3.0, 1e300, f64::INFINITY,
    ];
    for pair in numbers.windows(2) {
        assert!(number_key(pair[0].to_bits()) < number_key(pair[1].to_bits()));
        assert!(at_least(pair[1].to_bits(), pair[0].to_bits()));
        assert!(!at_least(pair[0].to_bits(), pair[1].to_bits()));
        assert!(total_greater(pair[1].to_bits(), pair[0].to_bits()));
    }
    assert_eq!(number_key((-0.0f64).to_bits()), number_key(0.0f64.to_bits()));
    assert_eq!(number_key(0.0f64.to_bits()), "8000000000000000");
    assert_eq!(number_key((-1.0f64).to_bits()), "400fffffffffffff");
    assert_eq!(number_key(1.0f64.to_bits()), "bff0000000000000");
}

#[test]
fn comparisons_of_bits_are_those_of_numbers() {
    let numbers = [f64::NAN, f64::NEG_INFINITY, -3.5, -0.0, 0.0, 2.0, f64::INFINITY];
    for a in numbers {
        assert_eq!(is_finite_double(a.to_bits()), a.is_finite());
        assert_eq!(is_finite_single((a as f32).to_bits()), (a as f32).is_finite());
        assert_eq!(is_zero_single((a as f32).to_bits()), a == 0.0);
        for b in numbers {
            assert_eq!(at_least(a.to_bits(), b.to_bits()), a >= b);
            assert_eq!(total_greater(a.to_bits(), b.to_bits()), a.total_cmp(&b).is_gt());
        }
    }
}

#[test]
fn a_batch_applies_its_operations_in_order() {
    let runtime = tokio::runtime::Runtime::new().unwrap();
    runtime.block_on(async {
        let db = Db::open("keys", Arc::new(InMemory::new())).await.unwrap();
        let mut ops: Vec<KeyOp> = Vec::new();
        put(&mut ops, "a".into(), b"first".to_vec());
        put(&mut ops, "b".into(), b"kept".to_vec());
        put(&mut ops, "a".into(), b"second".to_vec());
        put(&mut ops, "c".into(), b"gone".to_vec());
        delete(&mut ops, "c".into());
        delete(&mut ops, "d".into());
        put(&mut ops, "d".into(), Vec::new());
        assert!(is_batchable(&ops));
        db.write(batch(&ops)).await.unwrap();
        let read = |key: &'static str| {
            let db = &db;
            async move { db.get(key).await.unwrap().map(|v| v.to_vec()) }
        };
        assert_eq!(read("a").await.unwrap(), b"second");
        assert_eq!(read("b").await.unwrap(), b"kept");
        assert!(read("c").await.is_none());
        assert_eq!(read("d").await.unwrap(), b"");
        db.close().await.unwrap();
    });
}

#[test]
fn only_keys_that_the_store_takes_are_batchable() {
    let op = |key: String| vec![KeyOp { key, value: None }];
    assert!(is_batchable(&Vec::new()));
    assert!(is_batchable(&op("k".into())));
    assert!(!is_batchable(&op(String::new())));
    assert!(is_batchable(&op("k".repeat(65_535))));
    assert!(!is_batchable(&op("k".repeat(65_536))));
}
