use std::sync::Arc;

use gengis_mimi::backup::{
    check_header, check_restorable, export, header, key_length, migrate_document, restore_batch,
    value_length, Exporter, Migration, Reader, Record, Restorer, Verifier,
};
use gengis_mimi::error::{Error, Result};
use gengis_mimi::maintenance::{current_format, format_key};
use gengis_mimi::model::{Document, Metric, NamespaceConfig, NamespaceStats};
use gengis_mimi::textmap::TextMap;
use sha2::{Digest, Sha256};
use slatedb::object_store::memory::InMemory;
use slatedb::Db;

fn record(key: &[u8], value: &[u8]) -> Record {
    Record { key: key.to_vec(), value: value.to_vec() }
}

fn format_record() -> Record {
    record(format_key().as_bytes(), &current_format())
}

fn verify(records: &[Record], footer: &[u8], trailing: bool) -> Result<()> {
    let mut verifier = Verifier::new();
    for r in records {
        verifier.record(&r.key, &r.value)?;
    }
    verifier.finish(footer, trailing)
}

fn footer(records: &[Record]) -> Vec<u8> {
    let mut exporter = Exporter::new();
    for r in records {
        exporter.record(&r.key, &r.value);
    }
    exporter.footer()[4..].to_vec()
}

#[test]
fn a_backup_has_its_documented_bytes() {
    let bytes = export(&vec![record(b"k", b"value")]);
    let mut expected = b"GMBAK\x02\r\n\x01\0\0\0\x05\0\0\0kvalue".to_vec();
    let sum = Sha256::digest(&expected);
    expected.extend_from_slice(&[0xff; 4]);
    expected.extend_from_slice(&1u64.to_le_bytes());
    expected.extend_from_slice(&sum);
    assert_eq!(bytes, expected);
    let mut exporter = Exporter::new();
    let mut streamed = header();
    streamed.extend(exporter.record(b"k", b"value"));
    streamed.extend(exporter.footer());
    assert_eq!(streamed, expected);
}

#[test]
fn headers_and_lengths_are_checked() {
    check_header(&header()).unwrap();
    assert!(matches!(check_header(b"GMBAK\x01\r\n"),
        Err(Error::Corrupt(m)) if m == "unsupported backup format"));
    assert_eq!(key_length(&[0xff; 4]), None);
    assert_eq!(key_length(&[5, 1, 0, 0]), Some(261));
    assert_eq!(value_length(1, &[0, 0, 0, 1]).unwrap(), 16 * 1024 * 1024);
    for (key, value) in [(0, [1, 0, 0, 0]), (2049, [1, 0, 0, 0]), (1, [1, 0, 0, 1])] {
        assert!(matches!(value_length(key, &value),
            Err(Error::Corrupt(m)) if m == "invalid backup record length"));
    }
}

#[test]
fn a_verified_file_is_complete_ordered_and_unchanged() {
    let records = vec![record(b"d/n/a", b"1"), format_record(), record(b"n/n", b"2")];
    let good = footer(&records);
    verify(&records, &good, false).unwrap();
    let refused = |result: Result<()>, message: &str| {
        assert!(matches!(result, Err(Error::Corrupt(m)) if m == message));
    };
    let end = "backup count, checksum, or footer is invalid";
    refused(verify(&records, &good, true), end);
    refused(verify(&records[..2], &good, false), end);
    for at in [0, 8, 39] {
        let mut broken = good.clone();
        broken[at] ^= 1;
        refused(verify(&records, &broken, false), end);
    }
    let unmarked = vec![record(b"d/n/a", b"1")];
    refused(verify(&unmarked, &footer(&unmarked), false), end);
    let order = "backup keys must be strictly ordered";
    let swapped = vec![record(b"b", b""), record(b"a", b"")];
    refused(verify(&swapped, &good, false), order);
    let twice = vec![record(b"a", b""), record(b"a", b"")];
    refused(verify(&twice, &good, false), order);
    let partial = vec![record(b"meta/format", b"gengis-mimi:restoring:2")];
    refused(verify(&partial, &good, false), "backup is not a complete v2 database");
}

fn read(file: &[u8]) -> Result<Vec<Record>> {
    let mut reader = Reader::new();
    let mut records = Vec::new();
    let mut at = 0;
    while reader.need() > 0 {
        let end = (at + reader.need()).min(file.len());
        if end < at + reader.need() {
            return Err(Error::Io("unexpected end of file".into()));
        }
        records.extend(reader.feed(&file[at..end])?);
        at = end;
    }
    reader.finish(at < file.len())?;
    Ok(records)
}

#[test]
fn reading_gives_back_what_was_exported_and_nothing_else() {
    let records = vec![record(b"d/n/a", b""), format_record(), record(b"n/n", b"value")];
    let file = export(&records);
    let found = read(&file).unwrap();
    assert_eq!(found.len(), 3);
    for (a, b) in found.iter().zip(&records) {
        assert_eq!((&a.key, &a.value), (&b.key, &b.value));
    }
    for cut in 0..file.len() {
        assert!(read(&file[..cut]).is_err());
    }
    for at in 0..file.len() {
        let mut changed = file.clone();
        changed[at] ^= 0x10;
        assert!(read(&changed).is_err());
    }
    let mut longer = file.clone();
    longer.push(0xff);
    assert!(read(&longer).is_err());
    assert!(read(&export(&vec![record(b"k", b"v")])).is_err());
    let large = vec![record(&[b'k'; 2049], b""), format_record()];
    assert!(matches!(read(&export(&large)),
        Err(Error::Corrupt(m)) if m == "invalid backup record length"));
}

#[test]
fn restore_needs_an_empty_database() {
    check_restorable(b"meta/format").unwrap();
    assert!(matches!(check_restorable(b"n/demo"),
        Err(Error::Conflict(m)) if m == "restore requires an empty database prefix"));
}

#[test]
fn restore_writes_the_marker_with_the_last_batch_only() {
    let runtime = tokio::runtime::Runtime::new().unwrap();
    runtime.block_on(async {
        let db = Db::open("restore", Arc::new(InMemory::new())).await.unwrap();
        let mut restorer = Restorer::new();
        let big = vec![7u8; 700_000];
        assert!(restorer.add(record(b"a", &big)).is_none());
        assert!(restorer.add(format_record()).is_none());
        let full = restorer.add(record(b"n", &big)).unwrap();
        assert_eq!(full.len(), 2);
        db.write(restore_batch(&full, false)).await.unwrap();
        assert!(db.get("meta/format").await.unwrap().is_none());
        assert!(restorer.add(record(b"z", b"last")).is_none());
        db.write(restore_batch(&restorer.pending, true)).await.unwrap();
        assert_eq!(restorer.count, 3);
        for (key, value) in [("a", &big[..]), ("n", &big[..]), ("z", b"last"), ("meta/format", b"gengis-mimi:2")] {
            assert_eq!(db.get(key).await.unwrap().unwrap().as_ref(), value);
        }
        db.close().await.unwrap();
    });
}

#[test]
fn the_batches_of_a_restore_put_every_record_once() {
    let mut records: Vec<Record> = (0..9)
        .map(|i| record(format!("d/n/{i}").as_bytes(), &vec![i; 400_000]))
        .collect();
    records.push(format_record());
    records.push(record(b"n/n", b"schema"));
    let mut restorer = Restorer::new();
    let mut put = Vec::new();
    let mut batches = 0;
    for r in read(&export(&records)).unwrap() {
        if let Some(full) = restorer.add(r) {
            batches += 1;
            put.extend(full);
        }
    }
    assert_eq!(batches, 3);
    put.extend(restorer.pending);
    let plain: Vec<&Record> = records.iter().filter(|r| check_restorable(&r.key).is_err()).collect();
    assert_eq!((put.len(), restorer.count as usize), (10, plain.len()));
    for (a, b) in put.iter().zip(plain) {
        assert_eq!((&a.key, &a.value), (&b.key, &b.value));
    }
}

#[test]
fn migration_moves_vectors_and_can_run_again() {
    let schema = NamespaceConfig { dimensions: Some(1), metric: Metric::Dot, text_fields: vec![] };
    let document = |vector: Option<f32>| Document {
        id: "a".into(),
        vector: vector.map(|v| vec![v.to_bits()]),
        attributes: TextMap::new(),
    };
    let stats = Migration::new().stats;
    assert_eq!(stats, NamespaceStats { revision: 1, ..NamespaceStats::default() });
    let moved = document(Some(1.0));
    let (ops, after) = migrate_document("n", &schema, &moved, b"{}".to_vec(), None, &stats).unwrap();
    let mut keys: Vec<&str> = ops.iter().map(|op| op.key.as_str()).collect();
    keys.sort();
    assert_eq!(keys, ["c/n/a", "d/n/a", "v/n/a"]);
    let expected = NamespaceStats { revision: 1, documents: 1, bytes: 26, pending_documents: 1 };
    assert_eq!(after, expected);
    let converted = document(None);
    let (ops, again) =
        migrate_document("n", &schema, &converted, b"{}".to_vec(), Some(24), &stats).unwrap();
    assert_eq!(again, expected);
    assert_eq!(ops.len(), 2);
    let wrong = document(Some(f32::NAN));
    assert!(migrate_document("n", &schema, &wrong, b"{}".to_vec(), None, &stats).is_err());
}

#[test]
fn migration_commits_whole_documents_in_batches() {
    let schema = NamespaceConfig { dimensions: Some(1), metric: Metric::Dot, text_fields: vec![] };
    let mut migration = Migration::new();
    let mut batches = Vec::new();
    for i in 0..300 {
        let document = Document {
            id: format!("{i:03}"),
            vector: Some(vec![1f32.to_bits()]),
            attributes: TextMap::new(),
        };
        let full = migration.add("n", &schema, &document, b"{}".to_vec(), None).unwrap();
        batches.extend(full);
    }
    assert_eq!(batches.iter().map(Vec::len).collect::<Vec<_>>(), [384, 384]);
    assert_eq!(batches[1][0].key, "v/n/128");
    assert_eq!((migration.pending.len(), migration.count), (132, 44));
    assert_eq!((migration.stats.documents, migration.stats.bytes), (300, 7800));
    let wrong = Document { id: "w".into(), vector: Some(vec![]), attributes: TextMap::new() };
    assert!(migration.add("n", &schema, &wrong, b"{}".to_vec(), None).is_err());
    assert_eq!((migration.pending.len(), migration.stats.documents), (132, 300));
}
