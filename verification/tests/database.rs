use std::collections::BTreeMap;

use gengis_mimi::backup::{
    check_restorable, header, restore_batch, Exporter, Migration, Reader, Record, Restorer,
};
use gengis_mimi::binary::{decode, decode_vector, encode_vector};
use gengis_mimi::bm25::{query_terms, text_result, TextSearch};
use gengis_mimi::config::{IndexConfig, LimitsConfig};
use gengis_mimi::engine::{
    check_counters, plan_write, validate_batch, with_counters, DocumentForm, Prior,
};
use gengis_mimi::error::{Error, Result};
use gengis_mimi::index::{
    build, check_output, cluster_count, initial_centroid, lengths_key_of, nearest, term_prefix,
    vectors_of, EntryValue, IndexStatus, Training,
};
use gengis_mimi::json::{Json, Number};
use gengis_mimi::keys::{
    change_key, document_key, document_prefix, is_batchable, mark_key, member_prefix,
    namespace_key, put, root, vector_key, KeyOp,
};
use gengis_mimi::listing::{
    check_document, check_namespace, collect_page, decide_creation, validate_creation,
};
use gengis_mimi::maintenance::{
    current_format, decide_format, deletion_intent, erase_marks, erase_prefixes, format_key,
    is_covered, is_obsolete, migrating_format, publication, retire_changes, FormatAction,
};
use gengis_mimi::model::{
    Document, Filter, Metric, Namespace, NamespaceConfig, NamespaceStats, NumericRange, Page,
    PageRequest, QueryRequest, QueryResult, SearchHit, SearchMode, TextQuery, WriteRequest,
    WriteResult,
};
use gengis_mimi::postings::Posting;
use gengis_mimi::ranking::{score_rows, Ranked};
use gengis_mimi::search::{
    filter_ids, filter_scans, must_scan, pending, rank_clusters, vector_result, Step, StoredRow,
    VectorSearch,
};
use gengis_mimi::terms::Terms;
use gengis_mimi::textmap::TextMap;
use serde_json::Value;

// A database over an ordered map: the decisions are the library's, the map
// stands for the store and the scores are computed here.

type Attributes = BTreeMap<String, Value>;

#[derive(Clone, Debug, PartialEq)]
struct Doc {
    id: String,
    vector: Option<Vec<f32>>,
    attributes: Attributes,
}

#[derive(Clone, Default)]
struct Conditions {
    eq: Attributes,
    range: BTreeMap<String, (Option<f64>, Option<f64>)>,
}

struct Schema {
    dimensions: Option<usize>,
    metric: Metric,
    text_fields: Vec<String>,
}

struct Database {
    rows: BTreeMap<Vec<u8>, Vec<u8>>,
    schemas: BTreeMap<String, Schema>,
    indexes: BTreeMap<String, IndexStatus>,
    limits: LimitsConfig,
    index: IndexConfig,
    sequence: u64,
}

fn json(value: &Value) -> Json {
    match value {
        Value::Null => Json::Null,
        Value::Bool(b) => Json::Bool(*b),
        Value::Number(n) => Json::Number(if let Some(u) = n.as_u64() {
            Number::PosInt(u)
        } else if let Some(i) = n.as_i64() {
            Number::NegInt(i)
        } else {
            Number::Float(n.as_f64().unwrap().to_bits())
        }),
        Value::String(s) => Json::Text(s.clone()),
        Value::Array(items) => Json::Array(items.iter().map(json).collect()),
        Value::Object(members) => {
            Json::Object(members.iter().map(|(k, v)| (k.clone(), json(v))).collect())
        }
    }
}

fn value(json: &Json) -> Value {
    match json {
        Json::Null => Value::Null,
        Json::Bool(b) => Value::Bool(*b),
        Json::Number(Number::PosInt(n)) => Value::from(*n),
        Json::Number(Number::NegInt(n)) => Value::from(*n),
        Json::Number(Number::Float(bits)) => Value::from(f64::from_bits(*bits)),
        Json::Text(text) => Value::from(text.as_str()),
        Json::Array(items) => Value::Array(items.iter().map(value).collect()),
        Json::Object(members) => {
            Value::Object(members.iter().map(|(k, v)| (k.clone(), value(v))).collect())
        }
    }
}

fn attributes(map: &Attributes) -> TextMap<Json> {
    let mut result = TextMap::new();
    for (key, value) in map {
        result.insert(key.clone(), json(value));
    }
    result
}

fn plain(map: &TextMap<Json>) -> Attributes {
    (0..map.len()).map(|i| (map.key(i).clone(), value(map.value(i)))).collect()
}

fn bits(vector: &[f32]) -> Vec<u32> {
    vector.iter().map(|v| v.to_bits()).collect()
}

fn floats(vector: &[u32]) -> Vec<f32> {
    vector.iter().map(|v| f32::from_bits(*v)).collect()
}

fn filter(conditions: &Conditions) -> Filter {
    let mut range = TextMap::new();
    for (field, (gte, lte)) in &conditions.range {
        let bounds = NumericRange { gte: gte.map(f64::to_bits), lte: lte.map(f64::to_bits) };
        range.insert(field.clone(), bounds);
    }
    Filter { eq: attributes(&conditions.eq), range }
}

fn score(a: &[f32], b: &[f32], metric: Metric) -> f64 {
    let dot = |a: &[f32], b: &[f32]| -> f64 {
        a.iter().zip(b).map(|(x, y)| f64::from(*x) * f64::from(*y)).sum()
    };
    match metric {
        Metric::Dot => dot(a, b),
        Metric::SquaredEuclidean => {
            -a.iter().zip(b).map(|(x, y)| (f64::from(*x) - f64::from(*y)).powi(2)).sum::<f64>()
        }
        Metric::Cosine => {
            (dot(a, b) / (dot(a, a).sqrt() * dot(b, b).sqrt())).clamp(-1.0, 1.0)
        }
    }
}

fn encode_document(doc: &Doc, with_vector: bool) -> Vec<u8> {
    let mut object = serde_json::Map::new();
    object.insert("id".into(), Value::from(doc.id.as_str()));
    if let (true, Some(vector)) = (with_vector, &doc.vector) {
        object.insert("vector".into(), serde_json::to_value(vector).unwrap());
    }
    object.insert("attributes".into(), serde_json::to_value(&doc.attributes).unwrap());
    serde_json::to_vec(&Value::Object(object)).unwrap()
}

fn decode_attributes(bytes: &[u8]) -> Attributes {
    let value: Value = serde_json::from_slice(bytes).unwrap();
    serde_json::from_value(value["attributes"].clone()).unwrap()
}

fn encode_stats(stats: &NamespaceStats) -> Vec<u8> {
    let fields = [stats.revision, stats.documents, stats.bytes, stats.pending_documents];
    serde_json::to_vec(&fields).unwrap()
}

fn text(bytes: &[u8]) -> String {
    String::from_utf8(bytes.to_vec()).unwrap()
}

impl Database {
    fn new() -> Self {
        let mut rows = BTreeMap::new();
        rows.insert(format_key().into_bytes(), current_format());
        Database {
            rows,
            schemas: BTreeMap::new(),
            indexes: BTreeMap::new(),
            limits: LimitsConfig::default(),
            index: IndexConfig::default(),
            sequence: 0,
        }
    }

    fn commit(&mut self, ops: &Vec<KeyOp>) {
        assert!(is_batchable(ops));
        for op in ops {
            match &op.value {
                Some(value) => self.rows.insert(op.key.clone().into_bytes(), value.clone()),
                None => self.rows.remove(op.key.as_bytes()),
            };
        }
        self.sequence += 1;
    }

    fn under(&self, prefix: &str) -> Vec<(Vec<u8>, Vec<u8>)> {
        self.rows
            .range(prefix.as_bytes().to_vec()..)
            .take_while(|(key, _)| key.starts_with(prefix.as_bytes()))
            .map(|(key, value)| (key.clone(), value.clone()))
            .collect()
    }

    fn schema(&self, name: &str) -> Result<NamespaceConfig> {
        check_namespace(name, self.rows.contains_key(namespace_key(name).as_bytes()))?;
        let schema = &self.schemas[name];
        Ok(NamespaceConfig {
            dimensions: schema.dimensions,
            metric: schema.metric,
            text_fields: schema.text_fields.clone(),
        })
    }

    fn create(
        &mut self,
        name: &str,
        dimensions: Option<usize>,
        metric: Metric,
        text_fields: Vec<String>,
    ) -> Result<()> {
        let config = NamespaceConfig { dimensions, metric, text_fields: text_fields.clone() };
        validate_creation(name, &config)?;
        let existing = self
            .schema(name)
            .ok()
            .map(|config| Namespace { name: name.into(), config });
        if decide_creation(&config, existing.as_ref())? {
            let schema = Schema { dimensions, metric, text_fields };
            self.schemas.insert(name.into(), schema);
            let mut ops = Vec::new();
            put(&mut ops, namespace_key(name), b"schema".to_vec());
            self.commit(&ops);
        }
        Ok(())
    }

    fn stats(&self, name: &str) -> NamespaceStats {
        match self.rows.get(mark_key('s', name).as_bytes()) {
            Some(bytes) => {
                let fields: [u64; 4] = serde_json::from_slice(bytes).unwrap();
                NamespaceStats {
                    revision: fields[0],
                    documents: fields[1],
                    bytes: fields[2],
                    pending_documents: fields[3],
                }
            }
            None => NamespaceStats::default(),
        }
    }

    fn write(&mut self, name: &str, upsert: Vec<Doc>, delete: Vec<&str>) -> Result<WriteResult> {
        let forms: Vec<DocumentForm> = upsert
            .iter()
            .map(|doc| DocumentForm {
                serialized: encode_document(doc, true).len(),
                encoded: encode_document(doc, false),
            })
            .collect();
        let request = WriteRequest {
            upsert: upsert
                .iter()
                .map(|doc| Document {
                    id: doc.id.clone(),
                    vector: doc.vector.as_deref().map(bits),
                    attributes: attributes(&doc.attributes),
                })
                .collect(),
            delete: delete.iter().map(|id| id.to_string()).collect(),
        };
        validate_batch(name, &request)?;
        let schema = self.schema(name)?;
        let stats = self.stats(name);
        let size = |key: String| self.rows.get(key.as_bytes()).map(Vec::len);
        let priors: Vec<Prior> = upsert
            .iter()
            .map(|doc| doc.id.as_str())
            .chain(delete)
            .map(|id| Prior {
                document: size(document_key(name, id)),
                vector: size(vector_key(name, id)),
                changed: size(change_key(name, id)).is_some(),
            })
            .collect();
        assert!(check_counters(&stats, &request, &forms, &priors));
        let plan = plan_write(name, &schema, &stats, &request, &forms, &priors, &self.limits)?;
        let result = plan.acknowledge(self.sequence + 1);
        let encoded = encode_stats(&plan.stats);
        let ops = with_counters(plan.ops, name, encoded);
        self.commit(&ops);
        Ok(result)
    }

    fn vector(&self, name: &str, id: &str) -> Option<Vec<f32>> {
        let bytes = self.rows.get(vector_key(name, id).as_bytes())?;
        Some(floats(&decode_vector(bytes).unwrap()))
    }

    fn attributes(&self, name: &str, id: &str) -> Option<TextMap<Json>> {
        let bytes = self.rows.get(document_key(name, id).as_bytes())?;
        Some(attributes(&decode_attributes(bytes)))
    }

    fn get(&self, name: &str, id: &str) -> Result<Doc> {
        self.schema(name)?;
        let found = self.attributes(name, id);
        check_document(id, found.is_some())?;
        Ok(Doc {
            id: id.into(),
            vector: self.vector(name, id),
            attributes: plain(&found.unwrap()),
        })
    }

    fn documents(&self, name: &str, page: &PageRequest) -> Result<Page<String>> {
        page.validate()?;
        self.schema(name)?;
        let prefix = document_prefix(name);
        let ids: Vec<String> = self
            .under(&prefix)
            .iter()
            .map(|(key, _)| text(&key[prefix.len()..]))
            .filter(|id| page.after.as_ref().is_none_or(|after| id > after))
            .collect();
        Ok(collect_page(ids.clone(), &ids, page.limit))
    }

    fn dirty(&self, name: &str, watermark: u64) -> Result<TextMap<()>> {
        let prefix = member_prefix('c', name);
        let rows: Vec<StoredRow> = self
            .under(&prefix)
            .into_iter()
            .map(|(key, value)| StoredRow { key, value })
            .collect();
        pending(&rows, &prefix, watermark)
    }

    fn selected(&self, prefix: &str, filter: &Filter) -> Option<TextMap<()>> {
        let encoded: Vec<Vec<u8>> = (0..filter.eq.len())
            .map(|i| serde_json::to_vec(&value(&filter.eq.value(i).canonicalize())).unwrap())
            .collect();
        let lists: Vec<Vec<String>> = filter_scans(prefix, filter, &encoded)
            .iter()
            .map(|scan| {
                let mut ids = Vec::new();
                for (key, value) in self.under(&scan.prefix) {
                    let rest = &key[scan.prefix.len()..];
                    if rest >= scan.low.as_bytes()
                        && scan.high.as_ref().is_none_or(|high| rest < high.as_bytes())
                    {
                        ids.extend(serde_json::from_slice::<Vec<String>>(&value).unwrap());
                    }
                }
                ids
            })
            .collect();
        filter_ids(&lists)
    }

    fn query(
        &self,
        name: &str,
        vector: &[f32],
        top_k: usize,
        conditions: &Conditions,
        mode: SearchMode,
        probes: usize,
    ) -> Result<QueryResult> {
        let schema = self.schema(name)?;
        let filter = filter(conditions);
        let request = QueryRequest { vector: bits(vector), top_k, filter, mode, probes };
        request.validate(&schema)?;
        let filter = &request.filter;
        let index = self.indexes.get(name);
        let mut prefix = String::new();
        let mut order = Vec::new();
        let mut blocks = Vec::new();
        let mut search = match index {
            Some(index) if !must_scan(mode, true) => {
                prefix = root(name, &index.generation);
                let scores = index
                    .centroids
                    .iter()
                    .map(|c| score(vector, &floats(c), schema.metric).to_bits())
                    .collect();
                order = rank_clusters(&scores);
                blocks = index.cluster_blocks.clone();
                let dirty = self.dirty(name, index.revision)?;
                let selected = self.selected(&prefix, filter);
                VectorSearch::indexed(top_k, dirty, selected, self.index.filter_scan_threshold)
            }
            _ => VectorSearch::scan_all(top_k),
        };
        loop {
            let mut candidates: Vec<(String, Vec<f32>)> = Vec::new();
            match search.next(&prefix, &order, &blocks, probes) {
                Step::Scan => {
                    let start = document_prefix(name);
                    for (key, value) in self.under(&start) {
                        let id = text(&key[start.len()..]);
                        let found = attributes(&decode_attributes(&value));
                        if search.visit(filter, Some(&found)) {
                            candidates.extend(self.vector(name, &id).map(|v| (id, v)));
                        }
                    }
                }
                Step::Listed(ids) => {
                    for id in ids {
                        search.count();
                        candidates.extend(self.vector(name, &id).map(|v| (id, v)));
                    }
                }
                Step::Blocks(keys) => {
                    for key in keys {
                        let rows = decode(&self.rows[key.as_bytes()])?;
                        for (id, vector) in search.visit_block(&rows) {
                            candidates.push((id, floats(&vector)));
                        }
                    }
                }
                Step::Changed(ids) => {
                    for id in ids {
                        let found = self.attributes(name, &id);
                        if search.visit(filter, found.as_ref()) {
                            candidates.extend(self.vector(name, &id).map(|v| (id, v)));
                        }
                    }
                }
                Step::Finish => break,
            }
            let ids: Vec<String> = candidates.iter().map(|(id, _)| id.clone()).collect();
            let scores = candidates
                .iter()
                .map(|(_, v)| score(vector, v, schema.metric).to_bits())
                .collect();
            search.offer(&ids, &scores);
        }
        let hits = search.best.iter().map(|hit| self.attributes(name, &hit.id)).collect();
        let watermark = index.map_or(0, |i| i.revision);
        vector_result(search, hits, self.stats(name).revision, watermark)
    }

    fn search_text(
        &self,
        name: &str,
        field: &str,
        words: &str,
        top_k: usize,
        conditions: &Conditions,
    ) -> Result<QueryResult> {
        let schema = self.schema(name)?;
        let query = TextQuery {
            field: field.into(),
            text: words.into(),
            top_k,
            filter: filter(conditions),
        };
        query.validate(&schema)?;
        let terms = query_terms(words)?;
        let index = self.indexes.get(name);
        let mut looked_at = 0;
        let search = match index {
            Some(index) => {
                let prefix = root(name, &index.generation);
                let dirty = self.dirty(name, index.revision)?;
                let selected = self.selected(&prefix, &query.filter);
                let mut search =
                    TextSearch::indexed(&terms, &index.text, field, &selected, &dirty);
                for i in 0..terms.frequencies.len() {
                    let term = terms.frequencies.key(i);
                    let list = term_prefix(&prefix, field, term);
                    let mut items = Vec::new();
                    for (_, value) in self.under(&list) {
                        let rows: Vec<(String, u32, u32)> = serde_json::from_slice(&value).unwrap();
                        items.extend(rows.into_iter().map(|(id, frequency, length)| Posting {
                            id,
                            frequency,
                            length,
                        }));
                    }
                    search.load(term, &items, &dirty);
                }
                for i in 0..dirty.len() {
                    let id = dirty.key(i);
                    let counted = self.rows.get(lengths_key_of(&prefix, id).as_bytes()).map(|v| {
                        let fields: BTreeMap<String, u32> = serde_json::from_slice(v).unwrap();
                        let mut map = TextMap::new();
                        for (field, length) in fields {
                            map.insert(field, Terms { length, frequencies: TextMap::new() });
                        }
                        map
                    });
                    let current = self.attributes(name, id);
                    search.overlay(id, counted.as_ref(), current.as_ref(), field, &query.filter);
                }
                search
            }
            None => {
                let mut search = TextSearch::scan(&terms, &query.filter);
                let prefix = document_prefix(name);
                for (key, value) in self.under(&prefix) {
                    looked_at += 1;
                    let found = attributes(&decode_attributes(&value));
                    search.add_text_document(
                        &text(&key[prefix.len()..]),
                        &found,
                        field,
                        &query.filter,
                    );
                }
                search
            }
        };
        let documents = search.corpus.documents as f64;
        let average = search.corpus.tokens as f64 / documents;
        let mut scores: BTreeMap<String, f64> = BTreeMap::new();
        for term in search.term_matches() {
            let df = term.documents as f64;
            let idf = (1.0 + (documents - df + 0.5) / (df + 0.5)).ln();
            for posting in term.matches {
                let tf = f64::from(posting.frequency);
                let saturation = 0.25 + 0.75 * f64::from(posting.length) / average;
                *scores.entry(posting.id).or_default() +=
                    idf * (tf * 2.2) / (tf + 1.2 * saturation);
            }
        }
        let ids: Vec<String> = scores.keys().cloned().collect();
        let values = scores.values().map(|s| s.to_bits()).collect();
        let mut best: Vec<Ranked> = Vec::new();
        score_rows(&mut best, &ids, &values, top_k);
        let hits = best.iter().map(|hit| self.attributes(name, &hit.id)).collect();
        let revision = self.stats(name).revision;
        let watermark = index.map_or(0, |i| i.revision);
        text_result(best, hits, index.is_some(), looked_at, ids.len(), revision, watermark)
    }

    fn rebuild(&mut self, name: &str) -> Result<u64> {
        let schema = self.schema(name)?;
        let stats = self.stats(name);
        let prefix = document_prefix(name);
        let mut documents = Vec::new();
        let mut encoded = Vec::new();
        for (key, bytes) in self.under(&prefix) {
            let id = text(&key[prefix.len()..]);
            let vector = self.vector(name, &id).as_deref().map(bits);
            let attributes = attributes(&decode_attributes(&bytes));
            encoded.push(
                (0..attributes.len())
                    .map(|i| serde_json::to_vec(&value(&attributes.value(i).canonicalize())).unwrap())
                    .collect(),
            );
            documents.push(Document { id, vector, attributes });
        }
        let rows = vectors_of(&documents);
        let count = cluster_count(self.index.clusters, rows.len());
        let centroids: Vec<Vec<u32>> = (0..count)
            .map(|i| rows[initial_centroid(i, count, rows.len())].1.clone())
            .collect();
        let assignment = rows
            .iter()
            .map(|(_, vector)| {
                let near = |c: &Vec<u32>| {
                    score(&floats(vector), &floats(c), Metric::SquaredEuclidean).to_bits()
                };
                nearest(&centroids.iter().map(near).collect())
            })
            .collect();
        let training = Training { centroids, assignment };
        let (status, entries) =
            build(name, &schema, stats.revision, &documents, &encoded, training, &self.index);
        let ops: Vec<KeyOp> = entries
            .into_iter()
            .map(|entry| KeyOp {
                key: entry.key,
                value: Some(match entry.value {
                    EntryValue::Vectors(bytes) => bytes,
                    EntryValue::Ids(ids) => serde_json::to_vec(&ids).unwrap(),
                    EntryValue::Postings(items) => {
                        let items: Vec<(&str, u32, u32)> =
                            items.iter().map(|p| (p.id.as_str(), p.frequency, p.length)).collect();
                        serde_json::to_vec(&items).unwrap()
                    }
                    EntryValue::Lengths(fields) => {
                        let fields: BTreeMap<&str, u32> = (0..fields.len())
                            .map(|i| (fields.key(i).as_str(), fields.value(i).length))
                            .collect();
                        serde_json::to_vec(&fields).unwrap()
                    }
                }),
            })
            .collect();
        check_output(&ops, &self.index)?;
        for batch in publication(name, ops, b"published".to_vec()) {
            self.commit(&batch);
        }
        let revision = status.revision;
        let retained = root(name, &status.generation);
        self.indexes.insert(name.into(), status);
        let stale: Vec<KeyOp> = self
            .under(&member_prefix('g', name))
            .into_iter()
            .map(|(key, _)| text(&key))
            .filter(|key| is_obsolete(key, &retained))
            .map(|key| KeyOp { key, value: None })
            .collect();
        self.commit(&stale);
        let mut keys = Vec::new();
        let mut values = Vec::new();
        for (key, value) in self.under(&member_prefix('c', name)) {
            if is_covered(&value, revision)? {
                keys.push(text(&key));
                values.push(Some(value));
            }
        }
        let (ops, after) = retire_changes(&keys, &values, &self.stats(name), revision)?;
        let ops = with_counters(ops, name, encode_stats(&after));
        self.commit(&ops);
        self.commit(&vec![KeyOp { key: mark_key('j', name), value: None }]);
        Ok(revision)
    }

    fn erase(&mut self, name: &str) {
        self.commit(&deletion_intent(name));
        assert!(self.schema(name).is_err());
        for prefix in erase_prefixes(name) {
            let ops = self
                .under(&prefix)
                .into_iter()
                .map(|(key, _)| KeyOp { key: text(&key), value: None })
                .collect();
            self.commit(&ops);
        }
        self.commit(&erase_marks(name));
        self.indexes.remove(name);
    }

    fn export(&self) -> Vec<u8> {
        let mut out = header();
        let mut exporter = Exporter::new();
        for (key, value) in &self.rows {
            out.extend(exporter.record(key, value));
        }
        out.extend(exporter.footer());
        out
    }
}

fn records(file: &[u8]) -> Result<Vec<Record>> {
    let mut reader = Reader::new();
    let mut records = Vec::new();
    let mut at = 0;
    while reader.need() > 0 {
        let end = at + reader.need();
        if end > file.len() {
            return Err(Error::Io("unexpected end of file".into()));
        }
        records.extend(reader.feed(&file[at..end])?);
        at = end;
    }
    reader.finish(at < file.len())?;
    Ok(records)
}

fn document(id: &str, vector: [f32; 2], group: &str, rank: u32) -> Doc {
    Doc {
        id: id.into(),
        vector: Some(vector.to_vec()),
        attributes: BTreeMap::from([
            ("group".into(), Value::from(group)),
            ("rank".into(), Value::from(rank)),
        ]),
    }
}

fn demo(metric: Metric) -> Database {
    let mut db = Database::new();
    db.create("demo", Some(2), metric, vec![]).unwrap();
    db
}

fn ids(result: &QueryResult) -> Vec<&str> {
    result.matches.iter().map(|hit| hit.id.as_str()).collect()
}

fn plain_query(db: &Database, name: &str, vector: [f32; 2], top_k: usize) -> Result<QueryResult> {
    db.query(name, &vector, top_k, &Conditions::default(), SearchMode::Auto, 4)
}

#[test]
fn rejected_batch_changes_nothing_and_scans_do_not_cross_namespaces() {
    let mut db = demo(Metric::Cosine);
    db.create("demo_extra", None, Metric::Cosine, vec![]).unwrap();
    db.write(
        "demo",
        vec![
            document("a", [1., 0.], "a", 1),
            document("aa", [0., 1.], "a", 1),
            document("b", [1., 1.], "a", 1),
        ],
        vec![],
    )
    .unwrap();
    let before = db.rows.clone();
    let mut invalid = document("bad", [1., 0.], "a", 1);
    invalid.vector = Some(vec![1.]);
    assert!(db.write("demo", vec![document("new", [1., 0.], "a", 1), invalid], vec!["a"]).is_err());
    assert!(db.get("demo", "a").is_ok());
    assert!(db.get("demo", "new").is_err());
    assert!(db.write("demo", vec![document("a", [1., 0.], "b", 2)], vec!["a"]).is_err());
    assert_eq!(db.rows, before);
    let first = db.documents("demo", &PageRequest { limit: 2, after: None }).unwrap();
    assert_eq!(first.items, ["a", "aa"]);
    assert_eq!(first.next_cursor.as_deref(), Some("aa"));
    let next = db.documents("demo", &PageRequest { limit: 2, after: first.next_cursor }).unwrap();
    assert_eq!(next.items, ["b"]);
    assert!(next.next_cursor.is_none());
    assert!(db.documents("demo_extra", &PageRequest::default()).unwrap().items.is_empty());
    assert!(db.get("demo_extra", "a").is_err());
    assert!(db.schema("../demo").is_err());
}

#[test]
fn exact_search_filters_before_ranking_and_respects_updates_and_deletes() {
    let mut db = demo(Metric::Cosine);
    db.write(
        "demo",
        vec![
            document("unmatched", [1., 0.], "private", 10),
            document("alpha", [1., 1.], "public", 2),
            document("beta", [1., 1.], "public", 3),
            document("low", [0., 1.], "public", 0),
        ],
        vec![],
    )
    .unwrap();
    let mut conditions = Conditions::default();
    conditions.eq.insert("group".into(), Value::from("public"));
    conditions.range.insert("rank".into(), (Some(1.), Some(3.)));
    let request = |db: &Database| {
        db.query("demo", &[1., 0.], 2, &conditions, SearchMode::Auto, 4).unwrap()
    };
    let result = request(&db);
    assert_eq!(ids(&result), ["alpha", "beta"]);
    assert!((f64::from_bits(result.matches[0].score) - 1. / 2_f64.sqrt()).abs() < 1e-10);
    assert_eq!(plain(&result.matches[0].attributes)["group"], "public");
    db.write("demo", vec![document("beta", [-1., 0.], "public", 3)], vec!["alpha"]).unwrap();
    let result = request(&db);
    assert_eq!(result.scanned_documents, 3);
    assert_eq!(result.plan, "exact_scan");
    assert_eq!(ids(&result), ["beta"]);
    assert_eq!(f64::from_bits(result.matches[0].score), -1.);
    assert_eq!((result.revision, result.indexed_revision), (2, 0));
    assert!(plain_query(&db, "demo", [0., 0.], 1).is_err());
    assert!(db.write("demo", vec![document("nan", [f32::NAN, 1.], "public", 1)], vec![]).is_err());
}

#[test]
fn metric_scores_have_consistent_order_and_document_only_namespaces_work() {
    let mut db = Database::new();
    for (name, metric) in [("dot", Metric::Dot), ("l2", Metric::SquaredEuclidean)] {
        db.create(name, Some(2), metric, vec![]).unwrap();
        db.write(
            name,
            vec![
                document("near", [1., 0.], "a", 1),
                document("large", [2., 1.], "a", 1),
                document("zero", [0., 0.], "a", 1),
            ],
            vec![],
        )
        .unwrap();
    }
    let dot = plain_query(&db, "dot", [1., 0.], 1).unwrap();
    assert_eq!((&*dot.matches[0].id, f64::from_bits(dot.matches[0].score)), ("large", 2.));
    let l2 = plain_query(&db, "l2", [1., 0.], 3).unwrap();
    let scores: Vec<f64> = l2.matches.iter().map(|hit| f64::from_bits(hit.score)).collect();
    assert_eq!(scores, [0., -1., -2.]);
    db.create("docs", None, Metric::Cosine, vec![]).unwrap();
    let doc = Doc {
        id: "plain".into(),
        vector: None,
        attributes: BTreeMap::from([("body".into(), Value::from("hello"))]),
    };
    db.write("docs", vec![doc.clone()], vec![]).unwrap();
    assert_eq!(db.get("docs", "plain").unwrap(), doc);
    assert!(plain_query(&db, "docs", [1., 0.], 1).is_err());
}

#[test]
fn queries_see_whole_batches_while_writes_run() {
    let mut db = demo(Metric::Dot);
    let docs = |revision: u32| -> Vec<Doc> {
        (0..400)
            .map(|i| {
                let vector = if i % 4 == 0 { [1., 0.] } else { [0., 1.] };
                document(&format!("doc{i:04}"), vector, "a", revision)
            })
            .collect()
    };
    db.write("demo", docs(0), vec![]).unwrap();
    for revision in 1..=2 {
        db.write("demo", docs(revision), vec![]).unwrap();
        let result = plain_query(&db, "demo", [1., 0.], 100).unwrap();
        assert_eq!(result.scanned_documents, 400);
        assert!(result
            .matches
            .iter()
            .all(|hit| plain(&hit.attributes)["rank"] == Value::from(revision)));
        assert_eq!(result.matches.first().unwrap().id, "doc0000");
        assert_eq!(result.matches.last().unwrap().id, "doc0396");
        assert_eq!(db.stats("demo").documents, 400);
        assert_eq!(db.stats("demo").revision, u64::from(revision) + 1);
    }
}

fn corpus() -> Vec<Doc> {
    (0..384u32)
        .map(|i| {
            let angle = i as f32 * 0.131;
            let group = if i % 3 == 0 { "a" } else { "b" };
            let mut doc = document(&format!("d{i:04}"), [angle.cos(), angle.sin()], group, i);
            let body = if i % 2 == 0 { "Rust storage storage engine" } else { "A search engine" };
            doc.attributes.insert("body".into(), Value::from(body));
            let zero = if i % 2 == 0 { -0.0 } else { 0.0 };
            doc.attributes.insert("zero".into(), Value::from(vec![Value::from(zero)]));
            doc.attributes.insert("signed".into(), Value::from(i as i32 - 192));
            doc
        })
        .collect()
}

fn setup() -> Database {
    let mut db = Database::new();
    db.index.clusters = 12;
    db.create("demo", Some(2), Metric::Cosine, vec!["body".into()]).unwrap();
    db.write("demo", corpus(), vec![]).unwrap();
    db
}

fn full(db: &Database, conditions: &Conditions) -> QueryResult {
    db.query("demo", &[1., 0.], 20, conditions, SearchMode::Auto, 1024).unwrap()
}

fn exact(db: &Database, conditions: &Conditions) -> QueryResult {
    db.query("demo", &[1., 0.], 20, conditions, SearchMode::Exact, 1024).unwrap()
}

#[test]
fn ann_and_filter_indexes_match_exact_with_pending_updates_deletes_and_rebuilds() {
    let mut db = setup();
    assert_eq!(db.rebuild("demo").unwrap(), 1);
    assert_eq!(db.stats("demo").pending_documents, 0);
    let mut conditions = Conditions::default();
    let ann = full(&db, &conditions);
    assert_eq!(ann.plan, "centroid_ann");
    assert_eq!(ids(&ann), ids(&exact(&db, &conditions)));
    conditions.eq.insert("group".into(), Value::from("a"));
    conditions.range.insert("signed".into(), (Some(-100.), Some(0.)));
    let filtered = full(&db, &conditions);
    assert_eq!(filtered.plan, "filtered_exact");
    assert!(filtered.scanned_documents < 100);
    assert_eq!(ids(&filtered), ids(&exact(&db, &conditions)));
    let mut zero = conditions.clone();
    zero.eq.insert("zero".into(), Value::from(vec![Value::from(0.0)]));
    assert!(!full(&db, &zero).matches.is_empty());
    assert_eq!(ids(&full(&db, &zero)), ids(&exact(&db, &zero)));
    db.index.filter_scan_threshold = 0;
    let probed = full(&db, &conditions);
    assert_eq!(probed.plan, "centroid_ann");
    assert_eq!(ids(&probed), ids(&exact(&db, &conditions)));
    db.index.filter_scan_threshold = 4096;
    let mut changed = document("d0000", [-1., 0.], "b", 0);
    changed.attributes.insert("body".into(), Value::from("storage"));
    let mut new = document("new", [1., 0.], "a", 0);
    new.attributes.insert("signed".into(), Value::from(-1));
    new.attributes.insert("body".into(), Value::from("storage storage"));
    db.write("demo", vec![changed, new], vec!["d0003"]).unwrap();
    assert_eq!(ids(&full(&db, &conditions)), ids(&exact(&db, &conditions)));
    assert_eq!(full(&db, &conditions).matches[0].id, "new");
    for revision in 2..8 {
        let mut doc = document("new", [1., 0.], "a", revision);
        doc.attributes.insert("signed".into(), Value::from(-1));
        db.write("demo", vec![doc], vec![]).unwrap();
        assert_eq!(ids(&full(&db, &conditions)), ids(&exact(&db, &conditions)));
    }
    db.rebuild("demo").unwrap();
    assert_eq!(db.stats("demo").pending_documents, 0);
    assert_eq!(ids(&full(&db, &conditions)), ids(&exact(&db, &conditions)));
    assert!(db.get("demo", "d0003").is_err());
}

#[test]
fn bm25_corpus_statistics_and_postings_track_mutations_and_selective_filters() {
    let mut db = setup();
    let mut conditions = Conditions::default();
    conditions.eq.insert("group".into(), Value::from("a"));
    let search = |db: &Database| {
        db.search_text("demo", "body", "STORAGE engine", 100, &conditions).unwrap()
    };
    let close = |a: &QueryResult, b: &QueryResult| {
        assert_eq!(ids(a), ids(b));
        for (a, b) in a.matches.iter().zip(&b.matches) {
            assert!((f64::from_bits(a.score) - f64::from_bits(b.score)).abs() < 1e-10);
        }
    };
    let scanned = search(&db);
    assert_eq!(scanned.plan, "bm25_scan");
    assert_eq!(scanned.scanned_documents, 384);
    db.rebuild("demo").unwrap();
    let indexed = search(&db);
    assert_eq!(indexed.plan, "bm25_index");
    close(&scanned, &indexed);
    let mut doc = document("d0000", [1., 0.], "a", 0);
    doc.attributes.insert("body".into(), Value::from("storage"));
    let mut new = doc.clone();
    new.id = "new".into();
    new.attributes.insert("body".into(), Value::from("a completely different corpus"));
    db.write("demo", vec![doc, new], vec!["d0006"]).unwrap();
    let pending = search(&db);
    db.rebuild("demo").unwrap();
    let caught_up = search(&db);
    close(&pending, &caught_up);
    db.erase("demo");
    assert!(db.schema("demo").is_err());
    db.create("demo", None, Metric::Cosine, vec![]).unwrap();
    assert_eq!(db.stats("demo").documents, 0);
    assert!(!db.rows.contains_key(mark_key('i', "demo").as_bytes()));
}

#[test]
fn quotas_reject_whole_batches_and_release_after_indexing_or_deletion() {
    let mut db = Database::new();
    db.limits.max_documents = 2;
    db.limits.max_pending_documents = 2;
    db.create("demo", None, Metric::Cosine, vec![]).unwrap();
    let doc = |id: &str| Doc { id: id.into(), vector: None, attributes: BTreeMap::new() };
    db.write("demo", vec![doc("a"), doc("b")], vec![]).unwrap();
    assert!(matches!(db.write("demo", vec![doc("c")], vec!["a"]), Err(Error::Limit(_))));
    assert!(db.get("demo", "a").is_ok());
    db.rebuild("demo").unwrap();
    db.write("demo", vec![doc("c")], vec!["a"]).unwrap();
    assert_eq!(db.stats("demo").documents, 2);
}

#[test]
fn snapshot_backup_survives_later_writes_and_corruption_is_rejected_before_restore() {
    let mut db = demo(Metric::Cosine);
    db.write("demo", vec![document("a", [1., 0.], "old", 1)], vec![]).unwrap();
    db.rebuild("demo").unwrap();
    let file = db.export();
    let snapshot = db.rows.clone();
    db.write("demo", vec![document("a", [0., 1.], "new", 2)], vec![]).unwrap();
    db.rebuild("demo").unwrap();
    let mut corrupt = file.clone();
    corrupt[20] ^= 1;
    assert!(records(&corrupt).is_err());
    for cut in [0, 7, 8, 20, file.len() - 1] {
        assert!(records(&file[..cut]).is_err());
    }
    let mut longer = file.clone();
    longer.push(0);
    assert!(records(&longer).is_err());
    let mut restorer = Restorer::new();
    let mut restored: BTreeMap<Vec<u8>, Vec<u8>> = BTreeMap::new();
    for record in records(&file).unwrap() {
        if let Some(full) = restorer.add(record) {
            let _ = restore_batch(&full, false);
            restored.extend(full.into_iter().map(|r| (r.key, r.value)));
        }
    }
    let _ = restore_batch(&restorer.pending, true);
    restored.extend(restorer.pending.into_iter().map(|r| (r.key, r.value)));
    restored.insert(format_key().into_bytes(), current_format());
    assert_eq!(restored, snapshot);
    assert_eq!(restorer.count as usize, snapshot.len() - 1);
    assert!(restored.keys().any(|key| check_restorable(key).is_err()));
    let mut copy = demo(Metric::Cosine);
    copy.rows = restored;
    assert_eq!(copy.get("demo", "a").unwrap().attributes["group"], "old");
    let hit = &plain_query(&copy, "demo", [1., 0.], 1).unwrap().matches[0];
    assert_eq!(f64::from_bits(hit.score), 1.);
}

fn stored_documents(db: &Database, name: &str) -> Vec<Doc> {
    db.under(&document_prefix(name))
        .iter()
        .map(|(_, bytes)| {
            let stored: Value = serde_json::from_slice(bytes).unwrap();
            Doc {
                id: stored["id"].as_str().unwrap().into(),
                vector: serde_json::from_value(stored["vector"].clone()).unwrap(),
                attributes: decode_attributes(bytes),
            }
        })
        .collect()
}

fn migrate_namespace(db: &mut Database, name: &str) {
    let schema = db.schema(name).unwrap();
    let mut migration = Migration::new();
    for doc in stored_documents(db, name) {
        let document = Document {
            id: doc.id.clone(),
            vector: doc.vector.as_deref().map(bits),
            attributes: attributes(&doc.attributes),
        };
        let moved = db.rows.get(vector_key(name, &doc.id).as_bytes()).map(Vec::len);
        let encoded = encode_document(&doc, false);
        if let Some(full) = migration.add(name, &schema, &document, encoded, moved).unwrap() {
            db.commit(&full);
        }
    }
    let counters = encode_stats(&migration.stats);
    db.commit(&with_counters(migration.pending, name, counters));
}

fn migrate(db: &mut Database) {
    db.rows.insert(format_key().into_bytes(), migrating_format());
    let names: Vec<String> = db.schemas.keys().cloned().collect();
    for name in names {
        migrate_namespace(db, &name);
    }
    db.rows.insert(format_key().into_bytes(), current_format());
}

#[test]
fn v1_migration_can_resume_after_partial_document_conversion() {
    let mut db = demo(Metric::Cosine);
    let marker = Some(b"gengis-mimi:1".to_vec());
    for id in ["a", "b"] {
        let bytes = encode_document(&document(id, [1., 0.], "v1", 1), true);
        db.rows.insert(document_key("demo", id).into_bytes(), bytes);
    }
    assert!(decide_format(&marker, false, false).is_err());
    assert_eq!(decide_format(&marker, true, false).unwrap(), FormatAction::Migrate);
    migrate(&mut db);
    assert_eq!(db.stats("demo").documents, 2);
    assert_eq!(db.get("demo", "b").unwrap().vector, Some(vec![1., 0.]));
    let done = db.rows.clone();
    let marker = Some(b"gengis-mimi:migrating:1:2".to_vec());
    assert!(decide_format(&marker, false, false).is_err());
    assert_eq!(decide_format(&marker, true, false).unwrap(), FormatAction::Migrate);
    let bytes = encode_document(&document("b", [1., 0.], "v1", 1), true);
    db.rows.insert(document_key("demo", "b").into_bytes(), bytes);
    db.rows.remove(vector_key("demo", "b").as_bytes());
    migrate(&mut db);
    assert_eq!(db.rows, done);
    assert_eq!(db.stats("demo").documents, 2);
    assert_eq!(db.get("demo", "a").unwrap().vector, Some(vec![1., 0.]));
    assert_eq!(db.stats("demo").pending_documents, 2);
    db.rebuild("demo").unwrap();
    assert_eq!(plain_query(&db, "demo", [1., 0.], 2).unwrap().matches.len(), 2);
}

#[test]
fn counters_describe_the_stored_data_after_every_batch() {
    let mut db = demo(Metric::Cosine);
    let check = |db: &Database| {
        let stats = db.stats("demo");
        let documents = db.under(&document_prefix("demo"));
        let vectors = db.under(&member_prefix('v', "demo"));
        let bytes: usize = documents.iter().chain(&vectors).map(|(_, value)| value.len()).sum();
        assert_eq!(stats.documents as usize, documents.len());
        assert_eq!(stats.bytes as usize, bytes);
        assert_eq!(stats.pending_documents as usize, db.under(&member_prefix('c', "demo")).len());
    };
    let result = db.write("demo", vec![document("a", [1., 0.], "x", 1)], vec!["gone"]).unwrap();
    assert_eq!((result.upserted, result.deleted, result.revision), (1, 1, 1));
    check(&db);
    let mut plain = document("a", [1., 0.], "longer group", 7);
    plain.vector = None;
    db.write("demo", vec![plain, document("b", [0., 1.], "y", 2)], vec![]).unwrap();
    assert!(db.vector("demo", "a").is_none());
    check(&db);
    db.rebuild("demo").unwrap();
    check(&db);
    db.write("demo", vec![], vec!["a", "b"]).unwrap();
    assert_eq!(db.stats("demo").bytes, 0);
    check(&db);
}

#[test]
fn deleting_a_namespace_leaves_others_untouched_and_is_idempotent() {
    let mut db = setup();
    db.rebuild("demo").unwrap();
    db.create("demo-2", Some(2), Metric::Cosine, vec!["body".into()]).unwrap();
    let before = db.rows.clone();
    db.write("demo-2", vec![document("a", [1., 0.], "x", 1)], vec![]).unwrap();
    db.erase("demo-2");
    let marker = namespace_key("demo-2").into_bytes();
    let kept: Vec<_> = before.iter().filter(|(key, _)| **key != marker).collect();
    assert_eq!(db.rows.iter().collect::<Vec<_>>(), kept);
    let once = db.rows.clone();
    db.erase("demo-2");
    assert_eq!(db.rows, once);
}

#[test]
fn an_interrupted_publication_keeps_the_previous_pointer() {
    let entry = |i: usize| KeyOp {
        key: format!("g/demo/new/v/0000/{i:08}"),
        value: Some(vec![7; 600_000]),
    };
    let batches = publication("demo", vec![entry(0), entry(1), entry(2)], b"new".to_vec());
    assert_eq!(batches.len(), 4);
    assert_eq!(batches[0][0].key, "j/demo");
    for stop in 0..=batches.len() {
        let mut db = Database::new();
        db.rows.insert(b"i/demo".to_vec(), b"old".to_vec());
        for batch in &batches[..stop] {
            db.commit(batch);
        }
        let entries = db.under("g/demo/new/").len();
        if stop < batches.len() {
            assert_eq!(db.rows[&b"i/demo".to_vec()], b"old");
        } else {
            assert_eq!(db.rows[&b"i/demo".to_vec()], b"new");
            assert_eq!(entries, 3);
        }
    }
}

#[test]
fn a_stored_vector_decodes_to_what_was_written() {
    let mut db = demo(Metric::SquaredEuclidean);
    let vector = [-0.0, f32::MIN_POSITIVE];
    db.write("demo", vec![document("a", vector, "x", 1)], vec![]).unwrap();
    assert_eq!(bits(&db.vector("demo", "a").unwrap()), bits(&vector));
    assert_eq!(db.rows[&b"v/demo/a".to_vec()], encode_vector(&bits(&vector)));
    assert_eq!(db.rows[&b"c/demo/a".to_vec()], 1u64.to_le_bytes());
}

#[test]
fn a_migration_converts_every_namespace_and_ends_the_same_after_an_interruption() {
    let first_format = || {
        let mut db = demo(Metric::Cosine);
        db.create("other", Some(2), Metric::Dot, vec!["body".into()]).unwrap();
        for (name, count) in [("demo", 130), ("other", 2)] {
            for i in 0..count {
                let doc = document(&format!("d{i:03}"), [1., i as f32], name, i);
                let bytes = encode_document(&doc, true);
                db.rows.insert(document_key(name, &doc.id).into_bytes(), bytes);
            }
        }
        let plain = Doc { id: "plain".into(), vector: None, attributes: BTreeMap::new() };
        let bytes = encode_document(&plain, true);
        db.rows.insert(document_key("other", "plain").into_bytes(), bytes);
        db.rows.insert(format_key().into_bytes(), b"gengis-mimi:1".to_vec());
        db
    };
    let mut whole = first_format();
    migrate(&mut whole);
    assert_eq!(whole.rows[&format_key().into_bytes()], b"gengis-mimi:2");
    for (name, count) in [("demo", 130), ("other", 3)] {
        let stats = whole.stats(name);
        assert_eq!((stats.documents, stats.pending_documents), (count, count));
        assert_eq!(whole.under(&member_prefix('c', name)).len() as u64, count);
        assert!(stored_documents(&whole, name).iter().all(|doc| doc.vector.is_none()));
        assert_eq!(whole.rows[&namespace_key(name).into_bytes()], b"schema");
    }
    assert_eq!(whole.get("demo", "d129").unwrap(), document("d129", [1., 129.], "demo", 129));
    assert_eq!(whole.get("other", "plain").unwrap().vector, None);
    for stop in ["", "d000", "d001"] {
        let mut again = first_format();
        again.rows.insert(format_key().into_bytes(), migrating_format());
        migrate_namespace(&mut again, "demo");
        let schema = again.schema("other").unwrap();
        for doc in stored_documents(&again, "other") {
            if doc.id.as_str() <= stop {
                let document = Document {
                    id: doc.id.clone(),
                    vector: doc.vector.as_deref().map(bits),
                    attributes: attributes(&doc.attributes),
                };
                let mut part = Migration::new();
                let encoded = encode_document(&doc, false);
                assert!(part.add("other", &schema, &document, encoded, None).unwrap().is_none());
                again.commit(&part.pending);
            }
        }
        migrate(&mut again);
        assert_eq!(again.rows, whole.rows);
    }
}

#[test]
fn the_lists_of_a_filter_hold_exactly_the_documents_that_it_accepts() {
    let mut db = setup();
    db.rebuild("demo").unwrap();
    let prefix = root("demo", &db.indexes["demo"].generation);
    assert!(db.selected(&prefix, &filter(&Conditions::default())).is_none());
    let mut group = Conditions::default();
    group.eq.insert("group".into(), Value::from("a"));
    let mut signed = group.clone();
    signed.range.insert("signed".into(), (Some(-100.), Some(0.)));
    let mut open = Conditions::default();
    open.range.insert("signed".into(), (None, Some(-0.0)));
    open.eq.insert("zero".into(), Value::from(vec![Value::from(0.0)]));
    let mut none = Conditions::default();
    none.eq.insert("group".into(), Value::from("c"));
    for (conditions, size) in [(group, 128), (signed, 34), (open, 193), (none, 0)] {
        let filter = filter(&conditions);
        let listed = db.selected(&prefix, &filter).unwrap();
        let accepted: Vec<String> = corpus()
            .into_iter()
            .filter(|doc| filter.matches(&attributes(&doc.attributes)))
            .map(|doc| doc.id)
            .collect();
        let listed: Vec<String> = (0..listed.len()).map(|i| listed.key(i).clone()).collect();
        assert_eq!(listed, accepted);
        assert_eq!(listed.len(), size);
    }
}

#[test]
fn full_probes_and_listed_filters_answer_like_a_scan() {
    let mut db = setup();
    db.rebuild("demo").unwrap();
    let mut body = document("d0001", [1., 0.], "a", 1);
    body.attributes.insert("body".into(), Value::from("new storage"));
    db.write("demo", vec![body, document("e", [1., 1.], "a", 2)], vec!["d0000"]).unwrap();
    let mut conditions = Conditions::default();
    conditions.eq.insert("group".into(), Value::from("a"));
    let shown = |result: &QueryResult| -> Vec<(String, u64, Attributes)> {
        let row = |hit: &SearchHit| (hit.id.clone(), hit.score, plain(&hit.attributes));
        result.matches.iter().map(row).collect()
    };
    for (threshold, conditions, plan) in [
        (4096, &Conditions::default(), "centroid_ann"),
        (128, &conditions, "filtered_exact"),
        (127, &conditions, "centroid_ann"),
    ] {
        db.index.filter_scan_threshold = threshold;
        for probes in [12, 1024] {
            let found =
                db.query("demo", &[1., 0.2], 50, conditions, SearchMode::Auto, probes).unwrap();
            let scanned =
                db.query("demo", &[1., 0.2], 50, conditions, SearchMode::Exact, probes).unwrap();
            assert_eq!((found.plan.as_str(), scanned.plan.as_str()), (plan, "exact_scan"));
            assert_eq!(found.matches.len(), 50);
            assert_eq!(shown(&found), shown(&scanned));
        }
    }
}

#[test]
fn text_answers_are_the_same_before_and_behind_and_after_an_index() {
    let conditions = Conditions::default();
    let changes = |db: &mut Database| {
        let mut doc = document("d0002", [1., 0.], "a", 0);
        doc.attributes.insert("body".into(), Value::from("engine of an engine"));
        db.write("demo", vec![doc], vec!["d0004", "d0005"]).unwrap();
    };
    let search = |db: &Database| {
        let result = db.search_text("demo", "body", "engine storage", 100, &conditions).unwrap();
        let hits: Vec<(String, u64)> =
            result.matches.iter().map(|hit| (hit.id.clone(), hit.score)).collect();
        (result.plan, hits)
    };
    let mut unindexed = setup();
    changes(&mut unindexed);
    let mut db = setup();
    db.rebuild("demo").unwrap();
    changes(&mut db);
    let lagging = search(&db);
    db.rebuild("demo").unwrap();
    let rebuilt = search(&db);
    let scanned = search(&unindexed);
    assert_eq!((scanned.0.as_str(), scanned.1.len()), ("bm25_scan", 100));
    assert_eq!((lagging.0.as_str(), rebuilt.0.as_str()), ("bm25_index", "bm25_index"));
    assert_eq!(lagging.1, scanned.1);
    assert_eq!(rebuilt.1, scanned.1);
}

#[test]
fn a_built_generation_holds_every_vector_once_under_distinct_keys() {
    let mut db = setup();
    db.index.clusters = 2;
    db.rebuild("demo").unwrap();
    let index = &db.indexes["demo"];
    let prefix = root("demo", &index.generation);
    assert_eq!((index.vectors, index.centroids.len()), (384, 2));
    assert_eq!(index.cluster_blocks.len(), 2);
    let mut found: Vec<(String, Vec<u32>)> = Vec::new();
    for (c, blocks) in index.cluster_blocks.iter().enumerate() {
        for b in 0..*blocks {
            let rows = decode(&db.rows[format!("{prefix}v/{c:04}/{b:08}").as_bytes()]).unwrap();
            assert!((1..=128).contains(&rows.len()));
            found.extend(rows);
        }
    }
    found.sort();
    let expected: Vec<(String, Vec<u32>)> =
        corpus().into_iter().map(|doc| (doc.id, bits(&doc.vector.unwrap()))).collect();
    assert_eq!(found, expected);
    let blocks: usize = index.cluster_blocks.iter().sum();
    assert_eq!(db.under(&format!("{prefix}v/")).len(), blocks);
    let bytes: usize = db.under(&prefix).iter().map(|(key, value)| key.len() + value.len()).sum();
    db.index.max_build_bytes = bytes - 1;
    assert!(matches!(db.rebuild("demo"), Err(Error::Limit(_))));
    db.index.max_build_bytes = bytes;
    db.rebuild("demo").unwrap();
}

#[test]
fn documents_that_are_not_pending_are_as_the_index_has_them() {
    let mut db = setup();
    db.rebuild("demo").unwrap();
    let built: BTreeMap<String, Doc> = corpus().into_iter().map(|doc| (doc.id.clone(), doc)).collect();
    let watermark = db.indexes["demo"].revision;
    assert_eq!(db.dirty("demo", watermark).unwrap().len(), 0);
    db.write("demo", vec![document("d0007", [0., 1.], "c", 1)], vec!["d0008"]).unwrap();
    db.write("demo", vec![document("new", [0., 1.], "c", 1)], vec!["d0007", "never"]).unwrap();
    let dirty = db.dirty("demo", watermark).unwrap();
    let names: Vec<&str> = (0..dirty.len()).map(|i| dirty.key(i).as_str()).collect();
    assert_eq!(names, ["d0007", "d0008", "never", "new"]);
    for (id, doc) in &built {
        if !dirty.contains(id) {
            assert_eq!(&db.get("demo", id).unwrap(), doc);
        }
    }
    assert_eq!(db.under(&document_prefix("demo")).len(), built.len() - 1);
    assert!(db.get("demo", "d0007").is_err());
}

#[test]
fn a_filter_restricts_text_answers_without_changing_scores() {
    let mut db = setup();
    let mut rare = document("rare", [1., 0.], "a", 0);
    rare.attributes.insert("body".into(), Value::from("unusual storage"));
    let mut other = document("rarer", [1., 0.], "b", 1);
    other.attributes.insert("body".into(), Value::from("unusual unusual words here"));
    let mut third = document("rarest", [1., 0.], "a", 2);
    third.attributes.insert("body".into(), Value::from("unusual"));
    db.write("demo", vec![rare, other, third], vec![]).unwrap();
    let mut group = Conditions::default();
    group.eq.insert("group".into(), Value::from("a"));
    let search = |db: &Database, conditions: &Conditions| -> Vec<(String, u64, Attributes)> {
        let result = db.search_text("demo", "body", "unusual words", 100, conditions).unwrap();
        let row = |hit: &SearchHit| (hit.id.clone(), hit.score, plain(&hit.attributes));
        result.matches.iter().map(row).collect()
    };
    let check = |db: &Database| {
        let mut left = search(db, &Conditions::default());
        assert_eq!(left.len(), 3);
        assert_eq!(left[0].0, "rarer");
        left.retain(|(_, _, found)| filter(&group).matches(&attributes(found)));
        let names: Vec<&str> = left.iter().map(|(id, _, _)| id.as_str()).collect();
        assert_eq!(names, ["rarest", "rare"]);
        assert_eq!(search(db, &group), left);
    };
    check(&db);
    db.rebuild("demo").unwrap();
    check(&db);
    db.write("demo", vec![], vec!["d0000"]).unwrap();
    check(&db);
}
