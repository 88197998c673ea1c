//! Immutable index generations: vector clusters, attribute postings and text
//! postings, built from one snapshot of a namespace.
use vstd::prelude::*;
use vstd::string::*;
use vstd::utf8::*;

use crate::binary::{block, copy_vector, encode, first_dimensions, row_view, rows_view, Row};
use crate::config::IndexConfig;
use crate::double::{
    double_value, finite_double, is_finite_double, law_total_order_ranks_numbers, nan_double,
    number_key, number_key_spec, total_greater, total_order,
};
use crate::error::{over_limit, verdict, ErrorView, Result, Verdict};
use crate::json::{as_double_spec, JsonView};
use crate::keys::{generation_root, op_view, ops_view, root, KeyOp, Op};
use crate::model::{Document, NamespaceConfig};
use crate::outside::{fresh_uuid, sha256, sha256_bytes};
use crate::postings::{
    add_id, add_posting, block_count, grouped, id_lists, lemma_block_count, lemma_no_parts,
    lemma_parts_joined, lemma_parts_push, lemma_viewed_ids, lemma_viewed_postings, list_block,
    parts_hold, posting_lists, posting_views, with_item, Pair, Posting, PostingView,
};
use crate::terms::{
    document_terms, field_terms, field_text, terms_view, texts_bounded, tokens, Terms, TermsView,
};
use crate::text::{hex, padded, push_hex, push_padded, views};
use crate::textmap::{join_lists, lemma_ordered, ordered, TextMap};

verus! {

pub const POSTINGS_PER_BLOCK: usize = 256;

/// A published generation.
#[derive(Debug)]
pub struct IndexStatus {
    pub generation: String,
    pub revision: u64,
    pub documents: usize,
    pub vectors: usize,
    pub centroids: Vec<Vec<u32>>,
    pub cluster_blocks: Vec<usize>,
    pub text: TextMap<Corpus>,
}

/// How many documents have a field as text, and with how many tokens in all.
#[derive(Clone, Copy, Debug, PartialEq, Eq, Structural)]
pub struct Corpus {
    pub documents: u64,
    pub tokens: u64,
}

impl Default for Corpus {
    fn default() -> (corpus: Self)
        ensures
            corpus == (Corpus { documents: 0, tokens: 0 }),
    {
        Corpus { documents: 0, tokens: 0 }
    }
}

// ---------------------------------------------------------------------------
// Keys
// ---------------------------------------------------------------------------
pub open spec fn digest_text(bytes: Seq<u8>) -> Seq<char> {
    hex(sha256(bytes))
}

/// The SHA-256 digest in hexadecimal.
pub fn digest(value: &[u8]) -> (text: String)
    ensures
        text@ == digest_text(value@),
{
    let hash = sha256_bytes(value);
    let mut text = String::new();
    push_hex(&mut text, hash.as_slice());
    assert(text@ =~= digest_text(value@));
    text
}

/// The key of an attribute value, from the encoding of its canonical form.
pub fn equality_key(canonical: &[u8]) -> (key: String)
    ensures
        key@ == digest_text(canonical@),
{
    digest(canonical)
}

/// `<prefix><kind>/<digest of the field>/`: the lists of one field.
pub open spec fn field_lists(prefix: Seq<char>, kind: char, field: Seq<char>) -> Seq<char> {
    prefix + seq![kind, '/'] + digest_text(encode_utf8(field)) + seq!['/']
}

/// The list of the documents whose attribute has the encoded value.
pub open spec fn equality_list(prefix: Seq<char>, field: Seq<char>, encoded: Seq<u8>) -> Seq<char> {
    field_lists(prefix, 'e', field) + digest_text(encoded)
}

/// The list of the documents whose attribute is the number.
pub open spec fn range_list(prefix: Seq<char>, field: Seq<char>, bits: u64) -> Seq<char> {
    field_lists(prefix, 'r', field) + number_key_spec(bits)
}

/// The list of the documents whose field has the term.
pub open spec fn term_list(prefix: Seq<char>, field: Seq<char>, term: Seq<char>) -> Seq<char> {
    field_lists(prefix, 't', field) + digest_text(encode_utf8(term))
}

pub open spec fn block_key(list: Seq<char>, b: nat) -> Seq<char> {
    list + seq!['/'] + padded(b, 8)
}

pub open spec fn cluster_block_key(prefix: Seq<char>, cluster: nat, b: nat) -> Seq<char> {
    prefix + seq!['v', '/'] + padded(cluster, 4) + seq!['/'] + padded(b, 8)
}

pub open spec fn lengths_key(prefix: Seq<char>, id: Seq<char>) -> Seq<char> {
    prefix + seq!['l', '/'] + id
}

pub fn field_prefix(prefix: &str, kind: char, field: &str) -> (key: String)
    ensures
        key@ == field_lists(prefix@, kind, field@),
{
    let mut key = prefix.to_string();
    key.push(kind);
    key.push('/');
    key.append(digest(field.as_bytes()).as_str());
    key.push('/');
    assert(key@ =~= field_lists(prefix@, kind, field@));
    key
}

pub fn equality_list_key(prefix: &str, field: &str, encoded: &[u8]) -> (key: String)
    ensures
        key@ == equality_list(prefix@, field@, encoded@),
{
    let mut key = field_prefix(prefix, 'e', field);
    key.append(equality_key(encoded).as_str());
    key
}

pub fn range_list_key(prefix: &str, field: &str, bits: u64) -> (key: String)
    ensures
        key@ == range_list(prefix@, field@, bits),
{
    let mut key = field_prefix(prefix, 'r', field);
    key.append(number_key(bits).as_str());
    key
}

pub fn term_list_key(prefix: &str, field: &str, term: &str) -> (key: String)
    ensures
        key@ == term_list(prefix@, field@, term@),
{
    let mut key = field_prefix(prefix, 't', field);
    key.append(digest(term.as_bytes()).as_str());
    key
}

/// Where the blocks of a term's list start.
pub fn term_prefix(prefix: &str, field: &str, term: &str) -> (key: String)
    ensures
        key@ == term_list(prefix@, field@, term@) + seq!['/'],
        forall|b: nat| (#[trigger] block_key(term_list(prefix@, field@, term@), b)).take(
            key@.len() as int,
        ) == key@,
{
    let mut key = term_list_key(prefix, field, term);
    let ghost list = key@;
    key.push('/');
    proof {
        assert(key@ =~= list + seq!['/']);
        assert forall|b: nat| (#[trigger] block_key(list, b)).take(key@.len() as int) == key@ by {
            assert(block_key(list, b).take(key@.len() as int) =~= key@);
        }
    }
    key
}

pub fn block_key_of(list: &str, b: usize) -> (key: String)
    ensures
        key@ == block_key(list@, b as nat),
{
    let mut key = list.to_string();
    key.push('/');
    push_padded(&mut key, b as u64, 8);
    assert(key@ =~= block_key(list@, b as nat));
    key
}

pub fn cluster_block_key_of(prefix: &str, cluster: usize, b: usize) -> (key: String)
    ensures
        key@ == cluster_block_key(prefix@, cluster as nat, b as nat),
{
    let mut key = prefix.to_string();
    key.push('v');
    key.push('/');
    push_padded(&mut key, cluster as u64, 4);
    key.push('/');
    push_padded(&mut key, b as u64, 8);
    assert(key@ =~= cluster_block_key(prefix@, cluster as nat, b as nat));
    key
}

pub fn lengths_key_of(prefix: &str, id: &str) -> (key: String)
    ensures
        key@ == lengths_key(prefix@, id@),
{
    let mut key = prefix.to_string();
    key.push('l');
    key.push('/');
    key.append(id);
    assert(key@ =~= lengths_key(prefix@, id@));
    key
}

// ---------------------------------------------------------------------------
// Entries
// ---------------------------------------------------------------------------
/// What a key of a generation holds.
pub enum EntryValue {
    Vectors(Vec<u8>),
    Lengths(TextMap<Terms>),
    Ids(Vec<String>),
    Postings(Vec<Posting>),
}

pub struct Entry {
    pub key: String,
    pub value: EntryValue,
}

pub enum EntryValueView {
    Vectors(Seq<u8>),
    Lengths(Map<Seq<char>, TermsView>),
    Ids(Seq<Seq<char>>),
    Postings(Seq<PostingView>),
}

pub struct EntryView {
    pub key: Seq<char>,
    pub value: EntryValueView,
}

impl View for EntryValue {
    type V = EntryValueView;

    open spec fn view(&self) -> EntryValueView {
        match self {
            EntryValue::Vectors(bytes) => EntryValueView::Vectors(bytes@),
            EntryValue::Lengths(terms) => EntryValueView::Lengths(terms_view(terms@)),
            EntryValue::Ids(ids) => EntryValueView::Ids(views(ids@)),
            EntryValue::Postings(items) => EntryValueView::Postings(posting_views(items@)),
        }
    }
}

impl View for Entry {
    type V = EntryView;

    open spec fn view(&self) -> EntryView {
        EntryView { key: self.key@, value: self.value@ }
    }
}

pub open spec fn entry_views(entries: Seq<Entry>) -> Seq<EntryView> {
    entries.map_values(|e: Entry| e@)
}

fn push_entry(entries: &mut Vec<Entry>, key: String, value: EntryValue)
    ensures
        entry_views(final(entries)@) == entry_views(old(entries)@).push(
            EntryView { key: key@, value: value@ },
        ),
{
    entries.push(Entry { key, value });
    assert(entry_views(entries@) =~= entry_views(old(entries)@).push(
        EntryView { key: key@, value: value@ },
    ));
}

// ---------------------------------------------------------------------------
// Vector clusters
// ---------------------------------------------------------------------------
pub open spec fn document_row(document: Document) -> Row {
    Row { id: document.id@, vector: document.vector->0@ }
}

/// The rows of the documents that have a vector, in order.
pub open spec fn vector_rows_of(documents: Seq<Document>, n: nat) -> Seq<Row>
    decreases n,
{
    if n == 0 {
        Seq::empty()
    } else {
        let front = vector_rows_of(documents, (n - 1) as nat);
        if documents[n - 1].vector is Some {
            front.push(document_row(documents[n - 1]))
        } else {
            front
        }
    }
}

/// The rows among the first `n` that are assigned to a cluster, in order.
pub open spec fn cluster_rows(rows: Seq<Row>, assignment: Seq<usize>, cluster: int, n: nat) -> Seq<Row>
    decreases n,
{
    if n == 0 {
        Seq::empty()
    } else {
        let front = cluster_rows(rows, assignment, cluster, (n - 1) as nat);
        if assignment[n - 1] == cluster {
            front.push(rows[n - 1])
        } else {
            front
        }
    }
}

/// At most 128 rows, and fewer of high dimension: about 256 KiB.
pub open spec fn rows_per_block(dimensions: Option<usize>) -> nat {
    let d = match dimensions {
        Some(d) => d as nat,
        None => 1,
    };
    let fit = 262144nat / (d * 4 + 130);
    if fit < 1 {
        1
    } else if fit > 128 {
        128
    } else {
        fit
    }
}

pub fn per_block(dimensions: Option<usize>) -> (rows: usize)
    requires
        dimensions is Some ==> dimensions->0 * 4 + 130 <= usize::MAX,
    ensures
        rows == rows_per_block(dimensions),
        1 <= rows <= 128,
{
    let d: usize = match dimensions {
        Some(d) => d,
        None => 1,
    };
    let fit: usize = 262144 / (d * 4 + 130);
    if fit < 1 {
        1
    } else if fit > 128 {
        128
    } else {
        fit
    }
}

pub open spec fn encoded_rows(rows: Seq<Row>) -> Seq<u8> {
    block(first_dimensions(rows), rows)
}

/// The first `n` block entries of a cluster.
pub open spec fn cluster_entries(
    prefix: Seq<char>,
    cluster: nat,
    rows: Seq<Row>,
    size: nat,
    n: nat,
) -> Seq<EntryView>
    decreases n,
{
    if n == 0 {
        Seq::empty()
    } else {
        let b = (n - 1) as nat;
        cluster_entries(prefix, cluster, rows, size, b).push(
            EntryView {
                key: cluster_block_key(prefix, cluster, b),
                value: EntryValueView::Vectors(encoded_rows(list_block(rows, size, b))),
            },
        )
    }
}

/// The block entries of the first `n` clusters.
pub open spec fn clusters_entries(
    prefix: Seq<char>,
    rows: Seq<Row>,
    assignment: Seq<usize>,
    size: nat,
    n: nat,
) -> Seq<EntryView>
    decreases n,
{
    if n == 0 {
        Seq::empty()
    } else {
        let c = (n - 1) as nat;
        let own = cluster_rows(rows, assignment, c as int, rows.len());
        clusters_entries(prefix, rows, assignment, size, c) + cluster_entries(
            prefix,
            c,
            own,
            size,
            block_count(own.len(), size),
        )
    }
}

/// The position of the row that starts centroid `i` of `count`: rows are spread
/// evenly over ID order.
pub fn initial_centroid(i: usize, count: usize, rows: usize) -> (at: usize)
    requires
        i < count <= rows,
        i * rows <= usize::MAX,
    ensures
        at == i * rows / (count as int),
        at == spread_position(i as int, count as int, rows as int),
        at < rows,
{
    proof {
        assert(i * rows / (count as int) < rows) by (nonlinear_arith)
            requires
                i < count,
                0 < count <= rows,
        ;
    }
    i * rows / count
}

/// How many clusters there are: as configured, but no more than vectors.
pub fn cluster_count(clusters: usize, vectors: usize) -> (count: usize)
    ensures
        count == if clusters <= vectors {
            clusters
        } else {
            vectors
        },
        count == clusters_for(clusters as int, vectors as int),
{
    if clusters <= vectors {
        clusters
    } else {
        vectors
    }
}

/// The nearest centroid, given the score of each: the last of the best.
pub open spec fn nearest_of(scores: Seq<u64>, best: int) -> bool {
    if scores.len() == 0 {
        best == 0
    } else {
        &&& 0 <= best < scores.len()
        &&& forall|i: int|
            0 <= i < scores.len() ==> total_order(#[trigger] scores[i]) <= total_order(scores[best])
        &&& forall|i: int|
            best < i < scores.len() ==> total_order(#[trigger] scores[i]) < total_order(scores[best])
    }
}

/// Picks the cluster of a vector from its score against each centroid.
pub fn nearest(scores: &Vec<u64>) -> (best: usize)
    ensures
        nearest_of(scores@, best as int),
{
    let mut best: usize = 0;
    let mut i: usize = 1;
    while i < scores.len()
        invariant
            scores@.len() > 0 ==> best < i <= scores@.len(),
            scores@.len() == 0 ==> best == 0,
            1 <= i,
            forall|k: int|
                0 <= k < i && k < scores@.len() ==> total_order(#[trigger] scores@[k])
                    <= total_order(scores@[best as int]),
            forall|k: int|
                best < k < i && k < scores@.len() ==> total_order(#[trigger] scores@[k])
                    < total_order(scores@[best as int]),
        decreases scores@.len() - i,
    {
        if !total_greater(scores[best], scores[i]) {
            best = i;
        }
        i += 1;
    }
    best
}

/// The documents' vectors with their IDs.
pub fn vectors_of(documents: &Vec<Document>) -> (rows: Vec<(String, Vec<u32>)>)
    ensures
        rows_view(rows@) == vector_rows_of(documents@, documents@.len()),
        rows@.len() <= documents@.len(),
{
    let mut rows: Vec<(String, Vec<u32>)> = Vec::new();
    assert(rows_view(rows@) =~= vector_rows_of(documents@, 0));
    let mut i: usize = 0;
    while i < documents.len()
        invariant
            i <= documents@.len(),
            rows@.len() <= i,
            rows_view(rows@) == vector_rows_of(documents@, i as nat),
        decreases documents@.len() - i,
    {
        let ghost before = rows_view(rows@);
        match &documents[i].vector {
            Some(vector) => {
                let row = (documents[i].id.clone(), copy_vector(vector));
                let ghost added = row_view(row);
                rows.push(row);
                assert(rows_view(rows@) =~= before.push(added));
                assert(added == document_row(documents@[i as int]));
            },
            None => {},
        }
        i += 1;
    }
    rows
}

/// The rows of one cluster.
fn rows_of_cluster(rows: &Vec<(String, Vec<u32>)>, assignment: &Vec<usize>, cluster: usize) -> (own: Vec<
    (String, Vec<u32>),
>)
    requires
        assignment@.len() == rows@.len(),
    ensures
        rows_view(own@) == cluster_rows(rows_view(rows@), assignment@, cluster as int, rows@.len()),
{
    let ghost view = rows_view(rows@);
    let mut own: Vec<(String, Vec<u32>)> = Vec::new();
    assert(rows_view(own@) =~= cluster_rows(view, assignment@, cluster as int, 0));
    let mut i: usize = 0;
    while i < rows.len()
        invariant
            i <= rows@.len(),
            assignment@.len() == rows@.len(),
            view == rows_view(rows@),
            rows_view(own@) == cluster_rows(view, assignment@, cluster as int, i as nat),
        decreases rows@.len() - i,
    {
        if assignment[i] == cluster {
            let ghost before = rows_view(own@);
            let row = copy_row(&rows[i]);
            let ghost added = row_view(row);
            own.push(row);
            assert(rows_view(own@) =~= before.push(added));
            assert(view[i as int] == added);
        }
        i += 1;
    }
    own
}

pub fn copy_row(row: &(String, Vec<u32>)) -> (copy: (String, Vec<u32>))
    ensures
        row_view(copy) == row_view(*row),
{
    (row.0.clone(), copy_vector(&row.1))
}

fn rows_block(rows: &Vec<(String, Vec<u32>)>, start: usize, end: usize) -> (part: Vec<
    (String, Vec<u32>),
>)
    requires
        start <= end <= rows@.len(),
    ensures
        rows_view(part@) == rows_view(rows@).subrange(start as int, end as int),
{
    let ghost view = rows_view(rows@);
    let mut part: Vec<(String, Vec<u32>)> = Vec::new();
    assert(rows_view(part@) =~= view.subrange(start as int, start as int));
    let mut i: usize = start;
    while i < end
        invariant
            start <= i <= end <= rows@.len(),
            view == rows_view(rows@),
            rows_view(part@) == view.subrange(start as int, i as int),
        decreases end - i,
    {
        let ghost before = rows_view(part@);
        let row = copy_row(&rows[i]);
        let ghost added = row_view(row);
        part.push(row);
        assert(rows_view(part@) =~= before.push(added));
        assert(view[i as int] == added);
        assert(view.subrange(start as int, i + 1) =~= view.subrange(start as int, i as int).push(
            added,
        ));
        i += 1;
    }
    part
}

/// Appends the blocks of one cluster and returns how many there are.
fn push_cluster(
    entries: &mut Vec<Entry>,
    prefix: &str,
    cluster: usize,
    rows: &Vec<(String, Vec<u32>)>,
    size: usize,
) -> (blocks: usize)
    requires
        1 <= size <= 128,
    ensures
        blocks == block_count(rows@.len(), size as nat),
        entry_views(final(entries)@) == entry_views(old(entries)@) + cluster_entries(
            prefix@,
            cluster as nat,
            rows_view(rows@),
            size as nat,
            blocks as nat,
        ),
{
    let ghost start = entry_views(entries@);
    let ghost view = rows_view(rows@);
    let total = rows.len();
    let mut at: usize = 0;
    let mut b: usize = 0;
    assert(start + cluster_entries(prefix@, cluster as nat, view, size as nat, 0) =~= start);
    proof {
        lemma_block_count(total as nat, size as nat, 0);
    }
    while at < total
        invariant
            total == rows@.len(),
            view == rows_view(rows@),
            1 <= size <= 128,
            at == if b * size <= total {
                (b * size) as int
            } else {
                total as int
            },
            b <= block_count(total as nat, size as nat),
            at >= total ==> b == block_count(total as nat, size as nat),
            entry_views(entries@) == start + cluster_entries(
                prefix@,
                cluster as nat,
                view,
                size as nat,
                b as nat,
            ),
        decreases total - at,
    {
        proof {
            lemma_block_count(total as nat, size as nat, b as nat);
            lemma_block_count(total as nat, size as nat, (b + 1) as nat);
            assert((b + 1) * size == b * size + size) by (nonlinear_arith);
        }
        let end: usize = if total - at <= size {
            total
        } else {
            at + size
        };
        let part = rows_block(rows, at, end);
        let bytes = encode(&part);
        push_entry(entries, cluster_block_key_of(prefix, cluster, b), EntryValue::Vectors(bytes));
        assert(rows_view(part@) =~= list_block(view, size as nat, b as nat));
        assert(entry_views(entries@) =~= start + cluster_entries(
            prefix@,
            cluster as nat,
            view,
            size as nat,
            (b + 1) as nat,
        ));
        at = end;
        b += 1;
    }
    b
}

// ---------------------------------------------------------------------------
// Attribute postings
// ---------------------------------------------------------------------------
/// The lists that one attribute of a document joins: that of its value and, for
/// a finite number, that of the number.
pub open spec fn attribute_pairs(
    prefix: Seq<char>,
    field: Seq<char>,
    value: JsonView,
    encoded: Seq<u8>,
    id: Seq<char>,
) -> Seq<Pair<Seq<char>>> {
    let equal = seq![Pair { key: equality_list(prefix, field, encoded), item: id }];
    match as_double_spec(value) {
        Some(bits) => if finite_double(bits) {
            equal.push(Pair { key: range_list(prefix, field, bits), item: id })
        } else {
            equal
        },
        None => equal,
    }
}

/// The lists that the first `n` attributes of a document join. `encoded` holds
/// the encodings of the canonical values, in field order.
pub open spec fn document_pairs(
    prefix: Seq<char>,
    document: Document,
    encoded: Seq<Vec<u8>>,
    n: nat,
) -> Seq<Pair<Seq<char>>>
    decreases n,
{
    if n == 0 {
        Seq::empty()
    } else {
        let field = ordered(document.attributes@.dom())[n - 1];
        document_pairs(prefix, document, encoded, (n - 1) as nat) + attribute_pairs(
            prefix,
            field,
            document.attributes@[field]@,
            encoded[n - 1]@,
            document.id@,
        )
    }
}

pub open spec fn documents_pairs(
    prefix: Seq<char>,
    documents: Seq<Document>,
    encoded: Seq<Vec<Vec<u8>>>,
    n: nat,
) -> Seq<Pair<Seq<char>>>
    decreases n,
{
    if n == 0 {
        Seq::empty()
    } else {
        documents_pairs(prefix, documents, encoded, (n - 1) as nat) + document_pairs(
            prefix,
            documents[n - 1],
            encoded[n - 1]@,
            documents[n - 1].attributes@.dom().len(),
        )
    }
}

/// Every attribute of every document has an encoding.
pub open spec fn encodings_cover(documents: Seq<Document>, encoded: Seq<Vec<Vec<u8>>>) -> bool {
    &&& encoded.len() == documents.len()
    &&& forall|i: int|
        0 <= i < documents.len() ==> (#[trigger] encoded[i])@.len()
            == documents[i].attributes@.dom().len()
}

proof fn lemma_grouped_push<T>(pairs: Seq<Pair<T>>, pair: Pair<T>)
    ensures
        grouped(pairs.push(pair)) == with_item(grouped(pairs), pair.key, pair.item),
{
    assert(pairs.push(pair).drop_last() =~= pairs);
}

/// The attribute lists of one document.
fn list_attributes(prefix: &str, document: &Document, encoded: &Vec<Vec<u8>>) -> (lists: TextMap<
    Vec<String>,
>)
    requires
        encoded@.len() == document.attributes@.dom().len(),
    ensures
        id_lists(lists@) == grouped(
            document_pairs(
                prefix@,
                *document,
                encoded@,
                document.attributes@.dom().len(),
            ),
        ),
{
    let mut lists: TextMap<Vec<String>> = TextMap::new();
    let count = document.attributes.len();
    proof {
        lemma_ordered(document.attributes.keys(), document.attributes@.dom());
        assert(id_lists(lists@) =~= grouped(document_pairs(prefix@, *document, encoded@, 0)));
    }
    let ghost fields = document.attributes.keys();
    let mut i: usize = 0;
    while i < count
        invariant
            i <= count,
            count == fields.len() == encoded@.len(),
            fields == document.attributes.keys(),
            fields == ordered(document.attributes@.dom()),
            id_lists(lists@) == grouped(document_pairs(prefix@, *document, encoded@, i as nat)),
        decreases count - i,
    {
        let ghost pairs = document_pairs(prefix@, *document, encoded@, i as nat);
        let ghost after = document_pairs(prefix@, *document, encoded@, (i + 1) as nat);
        let field = document.attributes.key(i);
        let value = document.attributes.value(i);
        let equal = equality_list_key(prefix, field.as_str(), encoded[i].as_slice());
        let ghost first = Pair { key: equal@, item: document.id@ };
        add_id(&mut lists, equal, document.id.clone());
        proof {
            lemma_grouped_push(pairs, first);
        }
        let number: Option<u64> = match value.as_double() {
            Some(bits) => if is_finite_double(bits) {
                Some(bits)
            } else {
                None
            },
            None => None,
        };
        match number {
            Some(bits) => {
                let key = range_list_key(prefix, field.as_str(), bits);
                let ghost second = Pair { key: key@, item: document.id@ };
                add_id(&mut lists, key, document.id.clone());
                proof {
                    lemma_grouped_push(pairs.push(first), second);
                    assert(pairs.push(first).push(second) =~= after);
                }
            },
            None => {
                assert(pairs.push(first) =~= after);
            },
        }
        i += 1;
    }
    lists
}

/// The attribute lists of all documents.
pub fn attribute_lists(prefix: &str, documents: &Vec<Document>, encoded: &Vec<Vec<Vec<u8>>>) -> (lists: TextMap<
    Vec<String>,
>)
    requires
        encodings_cover(documents@, encoded@),
    ensures
        id_lists(lists@) == grouped(
            documents_pairs(prefix@, documents@, encoded@, documents@.len()),
        ),
{
    let mut parts: Vec<TextMap<Vec<String>>> = Vec::new();
    proof {
        lemma_no_parts(parts@, documents_pairs(prefix@, documents@, encoded@, 0));
    }
    let mut i: usize = 0;
    while i < documents.len()
        invariant
            i <= documents@.len(),
            encodings_cover(documents@, encoded@),
            parts_hold(parts@, documents_pairs(prefix@, documents@, encoded@, i as nat)),
        decreases documents@.len() - i,
    {
        let ghost before = documents_pairs(prefix@, documents@, encoded@, i as nat);
        assert(encoded@[i as int]@.len() == documents@[i as int].attributes@.dom().len());
        let part = list_attributes(prefix, &documents[i], &encoded[i]);
        proof {
            let document = documents@[i as int];
            let own = document_pairs(
                prefix@,
                document,
                encoded@[i as int]@,
                document.attributes@.dom().len(),
            );
            lemma_viewed_ids(part@);
            lemma_parts_push(parts@, before, part, own);
        }
        parts.push(part);
        i += 1;
    }
    let ghost all = parts@;
    let lists = join_lists(parts);
    proof {
        lemma_parts_joined(all, documents_pairs(prefix@, documents@, encoded@, i as nat), lists@);
        lemma_viewed_ids(lists@);
    }
    lists
}

// ---------------------------------------------------------------------------
// Text postings
// ---------------------------------------------------------------------------
/// The lists that the first `n` distinct terms of a field join.
pub open spec fn field_pairs(
    prefix: Seq<char>,
    field: Seq<char>,
    terms: TermsView,
    id: Seq<char>,
    n: nat,
) -> Seq<Pair<PostingView>>
    decreases n,
{
    if n == 0 {
        Seq::empty()
    } else {
        let term = ordered(terms.frequencies.dom())[n - 1];
        field_pairs(prefix, field, terms, id, (n - 1) as nat).push(
            Pair {
                key: term_list(prefix, field, term),
                item: PostingView {
                    id,
                    frequency: terms.frequencies[term],
                    length: terms.length as u32,
                },
            },
        )
    }
}

/// The lists that the first `n` text fields of a document join.
pub open spec fn text_pairs(
    prefix: Seq<char>,
    terms: Map<Seq<char>, TermsView>,
    id: Seq<char>,
    n: nat,
) -> Seq<Pair<PostingView>>
    decreases n,
{
    if n == 0 {
        Seq::empty()
    } else {
        let field = ordered(terms.dom())[n - 1];
        text_pairs(prefix, terms, id, (n - 1) as nat) + field_pairs(
            prefix,
            field,
            terms[field],
            id,
            terms[field].frequencies.dom().len(),
        )
    }
}

pub open spec fn documents_text_pairs(
    prefix: Seq<char>,
    documents: Seq<Document>,
    fields: Seq<Seq<char>>,
    n: nat,
) -> Seq<Pair<PostingView>>
    decreases n,
{
    if n == 0 {
        Seq::empty()
    } else {
        let terms = field_terms(documents[n - 1].attributes@, fields);
        documents_text_pairs(prefix, documents, fields, (n - 1) as nat) + text_pairs(
            prefix,
            terms,
            documents[n - 1].id@,
            terms.dom().len(),
        )
    }
}

/// One entry per document with searchable text: the terms of its fields.
pub open spec fn lengths_entries(
    prefix: Seq<char>,
    documents: Seq<Document>,
    fields: Seq<Seq<char>>,
    n: nat,
) -> Seq<EntryView>
    decreases n,
{
    if n == 0 {
        Seq::empty()
    } else {
        let front = lengths_entries(prefix, documents, fields, (n - 1) as nat);
        let terms = field_terms(documents[n - 1].attributes@, fields);
        if terms.dom().len() == 0 {
            front
        } else {
            front.push(
                EntryView {
                    key: lengths_key(prefix, documents[n - 1].id@),
                    value: EntryValueView::Lengths(terms),
                },
            )
        }
    }
}

/// How many of the first `n` documents have the field as text.
pub open spec fn field_documents(documents: Seq<Document>, field: Seq<char>, n: nat) -> nat
    decreases n,
{
    if n == 0 {
        0
    } else {
        field_documents(documents, field, (n - 1) as nat) + if field_text(
            documents[n - 1].attributes@,
            field,
        ) is Some {
            1nat
        } else {
            0nat
        }
    }
}

/// How many tokens the field has in the first `n` documents.
pub open spec fn field_tokens(documents: Seq<Document>, field: Seq<char>, n: nat) -> nat
    decreases n,
{
    if n == 0 {
        0
    } else {
        field_tokens(documents, field, (n - 1) as nat) + match field_text(
            documents[n - 1].attributes@,
            field,
        ) {
            Some(text) => tokens(text).len(),
            None => 0,
        }
    }
}

/// The statistics of every searchable field that some document has.
pub open spec fn corpora(documents: Seq<Document>, fields: Seq<Seq<char>>, n: nat) -> Map<
    Seq<char>,
    Corpus,
> {
    Map::new(
        |f: Seq<char>| fields.contains(f) && field_documents(documents, f, n) > 0,
        |f: Seq<char>|
            Corpus {
                documents: field_documents(documents, f, n) as u64,
                tokens: field_tokens(documents, f, n) as u64,
            },
    )
}

pub proof fn lemma_field_bounds(documents: Seq<Document>, field: Seq<char>, n: nat)
    requires
        n <= documents.len(),
        forall|i: int|
            0 <= i < documents.len() ==> texts_bounded((#[trigger] documents[i]).attributes@),
    ensures
        field_documents(documents, field, n) <= n,
        field_tokens(documents, field, n) <= n * u32::MAX,
    decreases n,
{
    if n > 0 {
        lemma_field_bounds(documents, field, (n - 1) as nat);
        assert(texts_bounded(documents[n - 1].attributes@));
        let text = field_text(documents[n - 1].attributes@, field);
        if text is Some {
            crate::terms::lemma_token_count(text->0);
        }
    }
}

fn list_field(
    lists: &mut TextMap<Vec<Posting>>,
    prefix: &str,
    field: &str,
    terms: &Terms,
    id: &str,
    Ghost(before): Ghost<Seq<Pair<PostingView>>>,
)
    requires
        posting_lists(old(lists)@) == grouped(before),
    ensures
        posting_lists(final(lists)@) == grouped(
            before + field_pairs(prefix@, field@, terms@, id@, terms@.frequencies.dom().len()),
        ),
{
    let count = terms.frequencies.len();
    let ghost names = terms.frequencies.keys();
    proof {
        lemma_ordered(names, terms.frequencies@.dom());
        assert(before + field_pairs(prefix@, field@, terms@, id@, 0) =~= before);
    }
    let mut i: usize = 0;
    while i < count
        invariant
            i <= count,
            count == names.len(),
            names == terms.frequencies.keys(),
            names == ordered(terms@.frequencies.dom()),
            posting_lists(lists@) == grouped(
                before + field_pairs(prefix@, field@, terms@, id@, i as nat),
            ),
        decreases count - i,
    {
        let ghost pairs = before + field_pairs(prefix@, field@, terms@, id@, i as nat);
        let term = terms.frequencies.key(i);
        let frequency = *terms.frequencies.value(i);
        let key = term_list_key(prefix, field, term.as_str());
        let posting = Posting { id: id.to_string(), frequency, length: terms.length };
        let ghost pair = Pair { key: key@, item: posting@ };
        add_posting(lists, key, posting);
        proof {
            lemma_grouped_push(pairs, pair);
            assert(pairs.push(pair) =~= before + field_pairs(
                prefix@,
                field@,
                terms@,
                id@,
                (i + 1) as nat,
            ));
        }
        i += 1;
    }
}

/// The term lists of one document.
fn list_terms(prefix: &str, terms: &TextMap<Terms>, id: &str) -> (lists: TextMap<Vec<Posting>>)
    ensures
        posting_lists(lists@) == grouped(
            text_pairs(
                prefix@,
                terms_view(terms@),
                id@,
                terms_view(terms@).dom().len(),
            ),
        ),
{
    let mut lists: TextMap<Vec<Posting>> = TextMap::new();
    let count = terms.len();
    let ghost names = terms.keys();
    let ghost view = terms_view(terms@);
    proof {
        assert(view.dom() =~= terms@.dom());
        lemma_ordered(names, terms@.dom());
        assert(posting_lists(lists@) =~= grouped(text_pairs(prefix@, view, id@, 0)));
    }
    let mut i: usize = 0;
    while i < count
        invariant
            i <= count,
            count == names.len(),
            names == terms.keys(),
            view == terms_view(terms@),
            names == ordered(view.dom()),
            posting_lists(lists@) == grouped(text_pairs(prefix@, view, id@, i as nat)),
        decreases count - i,
    {
        let ghost pairs = text_pairs(prefix@, view, id@, i as nat);
        let field = terms.key(i);
        let value = terms.value(i);
        list_field(&mut lists, prefix, field.as_str(), value, id, Ghost(pairs));
        proof {
            let own = field_pairs(
                prefix@,
                field@,
                value@,
                id@,
                value@.frequencies.dom().len(),
            );
            assert(view[field@] == value@);
            assert(pairs + own =~= text_pairs(prefix@, view, id@, (i + 1) as nat));
        }
        i += 1;
    }
    lists
}

/// Counts the fields of one more document.
fn count_terms(
    text: &mut TextMap<Corpus>,
    terms: &TextMap<Terms>,
    documents: &Vec<Document>,
    n: usize,
    fields: &Vec<String>,
)
    requires
        n < documents@.len() <= u32::MAX,
        forall|i: int|
            0 <= i < documents@.len() ==> texts_bounded((#[trigger] documents@[i]).attributes@),
        terms_view(terms@) == field_terms(documents@[n as int].attributes@, views(fields@)),
        old(text)@ == corpora(documents@, views(fields@), n as nat),
    ensures
        final(text)@ == corpora(documents@, views(fields@), (n + 1) as nat),
{
    let count = terms.len();
    let ghost names = terms.keys();
    let ghost start = text@;
    let ghost all = views(fields@);
    let ghost docs = documents@;
    let mut i: usize = 0;
    while i < count
        invariant
            i <= count,
            count == names.len(),
            names == terms.keys(),
            terms.coherent(),
            all == views(fields@),
            docs == documents@,
            n < docs.len() <= u32::MAX,
            forall|k: int|
                0 <= k < docs.len() ==> texts_bounded((#[trigger] docs[k]).attributes@),
            terms_view(terms@) == field_terms(docs[n as int].attributes@, all),
            start == corpora(docs, all, n as nat),
            forall|f: Seq<char>| #[trigger]
                text@.contains_key(f) == (start.contains_key(f) || names.take(i as int).contains(f)),
            forall|f: Seq<char>|
                names.take(i as int).contains(f) ==> #[trigger] text@[f] == (Corpus {
                    documents: field_documents(docs, f, (n + 1) as nat) as u64,
                    tokens: field_tokens(docs, f, (n + 1) as nat) as u64,
                }),
            forall|f: Seq<char>|
                start.contains_key(f) && !names.take(i as int).contains(f) ==> #[trigger] text@[f]
                    == start[f],
        decreases count - i,
    {
        let ghost before = text@;
        let field = terms.key(i);
        let length = terms.value(i).length;
        let ghost name = names[i as int];
        proof {
            crate::textmap::lemma_ascending_distinct(names);
            if names.take(i as int).contains(name) {
                let k = choose|k: int| 0 <= k < i && names.take(i as int)[k] == name;
                assert(names[k] == names[i as int]);
            }
            lemma_field_bounds(docs, name, n as nat);
            lemma_field_bounds(docs, name, (n + 1) as nat);
            assert(terms_view(terms@).contains_key(name));
            assert(terms_view(terms@)[name] == terms@[name]@);
            assert((n + 1) * u32::MAX <= u64::MAX);
        }
        let mut corpus = match text.get(field.as_str()) {
            Some(corpus) => *corpus,
            None => Corpus { documents: 0, tokens: 0 },
        };
        proof {
            if !start.contains_key(name) {
                assert(!text@.contains_key(name));
                lemma_no_tokens(docs, name, n as nat);
            }
        }
        corpus.documents = corpus.documents + 1;
        corpus.tokens = corpus.tokens + length as u64;
        let _ = text.insert(field.clone(), corpus);
        proof {
            let next = names.take(i + 1);
            let front = names.take(i as int);
            assert(next =~= front.push(name));
            assert forall|f: Seq<char>| #[trigger] next.contains(f) == (front.contains(f) || f == name) by {
                if next.contains(f) {
                    let k = choose|k: int| 0 <= k < next.len() && next[k] == f;
                    if k < i {
                        assert(front[k] == f);
                    }
                }
                if front.contains(f) {
                    let k = choose|k: int| 0 <= k < front.len() && front[k] == f;
                    assert(next[k] == f);
                }
                assert(next[i as int] == name);
            }
        }
        i += 1;
    }
    proof {
        let after = corpora(docs, all, (n + 1) as nat);
        assert(names.take(i as int) =~= names);
        assert forall|f: Seq<char>| #[trigger] text@.contains_key(f) == after.contains_key(f) by {
            assert(names.contains(f) == terms@.dom().contains(f)) by {
                assert(names.to_set().contains(f) == names.contains(f));
            }
            assert(terms_view(terms@).contains_key(f) == terms@.contains_key(f));
        }
        assert forall|f: Seq<char>| #[trigger] text@.contains_key(f) implies text@[f] == after[f] by {
            assert(names.contains(f) == terms@.dom().contains(f)) by {
                assert(names.to_set().contains(f) == names.contains(f));
            }
            assert(terms_view(terms@).contains_key(f) == terms@.contains_key(f));
        }
        assert(text@ =~= after);
    }
}

proof fn lemma_no_tokens(documents: Seq<Document>, field: Seq<char>, n: nat)
    requires
        field_documents(documents, field, n) == 0,
    ensures
        field_tokens(documents, field, n) == 0,
    decreases n,
{
    if n > 0 {
        lemma_no_tokens(documents, field, (n - 1) as nat);
    }
}

// ---------------------------------------------------------------------------
// Blocks of lists
// ---------------------------------------------------------------------------
/// The first `n` blocks of a list of ids.
pub open spec fn id_blocks(key: Seq<char>, list: Seq<Seq<char>>, n: nat) -> Seq<EntryView>
    decreases n,
{
    if n == 0 {
        Seq::empty()
    } else {
        let b = (n - 1) as nat;
        id_blocks(key, list, b).push(
            EntryView {
                key: block_key(key, b),
                value: EntryValueView::Ids(list_block(list, POSTINGS_PER_BLOCK as nat, b)),
            },
        )
    }
}

/// The blocks of the lists of the first `n` keys.
pub open spec fn id_entries(lists: Map<Seq<char>, Seq<Seq<char>>>, n: nat) -> Seq<EntryView>
    decreases n,
{
    if n == 0 {
        Seq::empty()
    } else {
        let key = ordered(lists.dom())[n - 1];
        id_entries(lists, (n - 1) as nat) + id_blocks(
            key,
            lists[key],
            block_count(lists[key].len(), POSTINGS_PER_BLOCK as nat),
        )
    }
}

fn copy_ids(rows: &Vec<String>, start: usize, end: usize) -> (part: Vec<String>)
    requires
        start <= end <= rows@.len(),
    ensures
        views(part@) == views(rows@).subrange(start as int, end as int),
{
    let ghost view = views(rows@);
    let mut part: Vec<String> = Vec::new();
    assert(views(part@) =~= view.subrange(start as int, start as int));
    let mut i: usize = start;
    while i < end
        invariant
            start <= i <= end <= rows@.len(),
            view == views(rows@),
            views(part@) == view.subrange(start as int, i as int),
        decreases end - i,
    {
        let ghost before = views(part@);
        let item = rows[i].clone();
        let ghost added = item@;
        part.push(item);
        assert(views(part@) =~= before.push(added));
        assert(view[i as int] == added);
        assert(view.subrange(start as int, i + 1) =~= view.subrange(start as int, i as int).push(
            added,
        ));
        i += 1;
    }
    part
}

/// Appends a list of ids, cut into blocks.
fn append_id_blocks(entries: &mut Vec<Entry>, key: &str, rows: &Vec<String>)
    ensures
        entry_views(final(entries)@) == entry_views(old(entries)@) + id_blocks(
            key@,
            views(rows@),
            block_count(rows@.len(), POSTINGS_PER_BLOCK as nat),
        ),
{
    let ghost start = entry_views(entries@);
    let ghost view = views(rows@);
    let total = rows.len();
    let mut at: usize = 0;
    let mut b: usize = 0;
    assert(start + id_blocks(key@, view, 0) =~= start);
    proof {
        lemma_block_count(total as nat, 256, 0);
    }
    while at < total
        invariant
            total == rows@.len(),
            view == views(rows@),
            at == if b * 256 <= total {
                (b * 256) as int
            } else {
                total as int
            },
            b <= block_count(total as nat, 256),
            at >= total ==> b == block_count(total as nat, 256),
            entry_views(entries@) == start + id_blocks(key@, view, b as nat),
        decreases total - at,
    {
        proof {
            lemma_block_count(total as nat, 256, b as nat);
            lemma_block_count(total as nat, 256, (b + 1) as nat);
        }
        let end: usize = if total - at <= 256 {
            total
        } else {
            at + 256
        };
        let part = copy_ids(rows, at, end);
        assert(views(part@) =~= list_block(view, POSTINGS_PER_BLOCK as nat, b as nat));
        push_entry(entries, block_key_of(key, b), EntryValue::Ids(part));
        assert(entry_views(entries@) =~= start + id_blocks(key@, view, (b + 1) as nat));
        at = end;
        b += 1;
    }
}

fn append_id_lists(entries: &mut Vec<Entry>, lists: &TextMap<Vec<String>>)
    ensures
        entry_views(final(entries)@) == entry_views(old(entries)@) + id_entries(
            id_lists(lists@),
            id_lists(lists@).dom().len(),
        ),
{
    let ghost start = entry_views(entries@);
    let ghost view = id_lists(lists@);
    let count = lists.len();
    let ghost names = lists.keys();
    proof {
        assert(view.dom() =~= lists@.dom());
        lemma_ordered(names, lists@.dom());
        assert(start + id_entries(view, 0) =~= start);
    }
    let mut i: usize = 0;
    while i < count
        invariant
            i <= count,
            count == names.len(),
            names == lists.keys(),
            view == id_lists(lists@),
            names == ordered(view.dom()),
            entry_views(entries@) == start + id_entries(view, i as nat),
        decreases count - i,
    {
        let ghost before = entry_views(entries@);
        let key = lists.key(i);
        let list = lists.value(i);
        append_id_blocks(entries, key.as_str(), list);
        proof {
            assert(view[key@] == views(list@));
            assert(entry_views(entries@) =~= start + id_entries(view, (i + 1) as nat));
        }
        i += 1;
    }
}

/// The first `n` blocks of a list of postings.
pub open spec fn posting_blocks(key: Seq<char>, list: Seq<PostingView>, n: nat) -> Seq<EntryView>
    decreases n,
{
    if n == 0 {
        Seq::empty()
    } else {
        let b = (n - 1) as nat;
        posting_blocks(key, list, b).push(
            EntryView {
                key: block_key(key, b),
                value: EntryValueView::Postings(list_block(list, POSTINGS_PER_BLOCK as nat, b)),
            },
        )
    }
}

/// The blocks of the lists of the first `n` keys.
pub open spec fn posting_entries(lists: Map<Seq<char>, Seq<PostingView>>, n: nat) -> Seq<EntryView>
    decreases n,
{
    if n == 0 {
        Seq::empty()
    } else {
        let key = ordered(lists.dom())[n - 1];
        posting_entries(lists, (n - 1) as nat) + posting_blocks(
            key,
            lists[key],
            block_count(lists[key].len(), POSTINGS_PER_BLOCK as nat),
        )
    }
}

fn copy_postings(rows: &Vec<Posting>, start: usize, end: usize) -> (part: Vec<Posting>)
    requires
        start <= end <= rows@.len(),
    ensures
        posting_views(part@) == posting_views(rows@).subrange(start as int, end as int),
{
    let ghost view = posting_views(rows@);
    let mut part: Vec<Posting> = Vec::new();
    assert(posting_views(part@) =~= view.subrange(start as int, start as int));
    let mut i: usize = start;
    while i < end
        invariant
            start <= i <= end <= rows@.len(),
            view == posting_views(rows@),
            posting_views(part@) == view.subrange(start as int, i as int),
        decreases end - i,
    {
        let ghost before = posting_views(part@);
        let item = rows[i].copy();
        let ghost added = item@;
        part.push(item);
        assert(posting_views(part@) =~= before.push(added));
        assert(view[i as int] == added);
        assert(view.subrange(start as int, i + 1) =~= view.subrange(start as int, i as int).push(
            added,
        ));
        i += 1;
    }
    part
}

/// Appends a list of postings, cut into blocks.
fn append_posting_blocks(entries: &mut Vec<Entry>, key: &str, rows: &Vec<Posting>)
    ensures
        entry_views(final(entries)@) == entry_views(old(entries)@) + posting_blocks(
            key@,
            posting_views(rows@),
            block_count(rows@.len(), POSTINGS_PER_BLOCK as nat),
        ),
{
    let ghost start = entry_views(entries@);
    let ghost view = posting_views(rows@);
    let total = rows.len();
    let mut at: usize = 0;
    let mut b: usize = 0;
    assert(start + posting_blocks(key@, view, 0) =~= start);
    proof {
        lemma_block_count(total as nat, 256, 0);
    }
    while at < total
        invariant
            total == rows@.len(),
            view == posting_views(rows@),
            at == if b * 256 <= total {
                (b * 256) as int
            } else {
                total as int
            },
            b <= block_count(total as nat, 256),
            at >= total ==> b == block_count(total as nat, 256),
            entry_views(entries@) == start + posting_blocks(key@, view, b as nat),
        decreases total - at,
    {
        proof {
            lemma_block_count(total as nat, 256, b as nat);
            lemma_block_count(total as nat, 256, (b + 1) as nat);
        }
        let end: usize = if total - at <= 256 {
            total
        } else {
            at + 256
        };
        let part = copy_postings(rows, at, end);
        assert(posting_views(part@) =~= list_block(view, POSTINGS_PER_BLOCK as nat, b as nat));
        push_entry(entries, block_key_of(key, b), EntryValue::Postings(part));
        assert(entry_views(entries@) =~= start + posting_blocks(key@, view, (b + 1) as nat));
        at = end;
        b += 1;
    }
}

fn append_posting_lists(entries: &mut Vec<Entry>, lists: &TextMap<Vec<Posting>>)
    ensures
        entry_views(final(entries)@) == entry_views(old(entries)@) + posting_entries(
            posting_lists(lists@),
            posting_lists(lists@).dom().len(),
        ),
{
    let ghost start = entry_views(entries@);
    let ghost view = posting_lists(lists@);
    let count = lists.len();
    let ghost names = lists.keys();
    proof {
        assert(view.dom() =~= lists@.dom());
        lemma_ordered(names, lists@.dom());
        assert(start + posting_entries(view, 0) =~= start);
    }
    let mut i: usize = 0;
    while i < count
        invariant
            i <= count,
            count == names.len(),
            names == lists.keys(),
            view == posting_lists(lists@),
            names == ordered(view.dom()),
            entry_views(entries@) == start + posting_entries(view, i as nat),
        decreases count - i,
    {
        let ghost before = entry_views(entries@);
        let key = lists.key(i);
        let list = lists.value(i);
        append_posting_blocks(entries, key.as_str(), list);
        proof {
            assert(view[key@] == posting_views(list@));
            assert(entry_views(entries@) =~= start + posting_entries(view, (i + 1) as nat));
        }
        i += 1;
    }
}

// ---------------------------------------------------------------------------
// Building
// ---------------------------------------------------------------------------
/// The centroids, and the cluster of each vector, in the order of the vectors.
pub struct Training {
    pub centroids: Vec<Vec<u32>>,
    pub assignment: Vec<usize>,
}

/// Every vector has one of the clusters.
pub open spec fn training_covers(training: Training, rows: Seq<Row>) -> bool {
    &&& training.assignment@.len() == rows.len()
    &&& forall|i: int|
        0 <= i < rows.len() ==> (#[trigger] training.assignment@[i]) < training.centroids@.len()
}

/// Everything that a generation stores.
pub open spec fn generation_entries(
    prefix: Seq<char>,
    schema: NamespaceConfig,
    documents: Seq<Document>,
    encoded: Seq<Vec<Vec<u8>>>,
    training: Training,
) -> Seq<EntryView> {
    let n = documents.len();
    let fields = views(schema.text_fields@);
    let attributes = grouped(documents_pairs(prefix, documents, encoded, n));
    let text = grouped(documents_text_pairs(prefix, documents, fields, n));
    clusters_entries(
        prefix,
        vector_rows_of(documents, n),
        training.assignment@,
        rows_per_block(schema.dimensions),
        training.centroids@.len(),
    ) + lengths_entries(prefix, documents, fields, n) + id_entries(attributes, attributes.dom().len())
        + posting_entries(text, text.dom().len())
}

/// What a published generation says of itself.
pub open spec fn status_describes(
    status: IndexStatus,
    schema: NamespaceConfig,
    revision: u64,
    documents: Seq<Document>,
    training: Training,
) -> bool {
    let n = documents.len();
    let rows = vector_rows_of(documents, n);
    let size = rows_per_block(schema.dimensions);
    &&& status.revision == revision
    &&& status.documents == n
    &&& status.vectors == rows.len()
    &&& status.centroids == training.centroids
    &&& status.cluster_blocks@.len() == training.centroids@.len()
    &&& forall|c: int|
        0 <= c < training.centroids@.len() ==> (#[trigger] status.cluster_blocks@[c])
            == block_count(
            cluster_rows(rows, training.assignment@, c, rows.len()).len(),
            size,
        )
    &&& status.text@ == corpora(documents, views(schema.text_fields@), n)
}

pub open spec fn buildable(
    schema: NamespaceConfig,
    documents: Seq<Document>,
    encoded: Seq<Vec<Vec<u8>>>,
    training: Training,
    config: IndexConfig,
) -> bool {
    let vectors = vector_rows_of(documents, documents.len()).len();
    &&& training.centroids@.len() == if config.clusters <= vectors {
        config.clusters as nat
    } else {
        vectors
    }
    &&& schema.dimensions is Some ==> schema.dimensions->0 * 4 + 130 <= usize::MAX
    &&& documents.len() <= u32::MAX
    &&& encodings_cover(documents, encoded)
    &&& training_covers(training, vector_rows_of(documents, documents.len()))
    &&& forall|i: int|
        0 <= i < documents.len() ==> texts_bounded((#[trigger] documents[i]).attributes@)
}

/// Builds a generation under a fresh name.
pub fn build(
    namespace: &str,
    schema: &NamespaceConfig,
    revision: u64,
    documents: &Vec<Document>,
    encoded: &Vec<Vec<Vec<u8>>>,
    training: Training,
    config: &IndexConfig,
) -> (result: (IndexStatus, Vec<Entry>))
    requires
        buildable(*schema, documents@, encoded@, training, *config),
    ensures
        status_describes(result.0, *schema, revision, documents@, training),
        exists|id: Seq<u8>| id.len() == 16 && result.0.generation@ == #[trigger] hex(id),
        entry_views(result.1@) == generation_entries(
            generation_root(namespace@, result.0.generation@),
            *schema,
            documents@,
            encoded@,
            training,
        ),
{
    build_generation(namespace, new_generation(), schema, revision, documents, encoded, training, config)
}

/// A name for a generation: 32 random hexadecimal digits.
pub fn new_generation() -> (name: String)
    ensures
        exists|id: Seq<u8>| id.len() == 16 && name@ == #[trigger] hex(id),
{
    let id = fresh_uuid();
    let mut name = String::new();
    push_hex(&mut name, id.as_slice());
    assert(name@ =~= hex(id@));
    name
}

/// Builds a generation under a given name.
pub fn build_generation(
    namespace: &str,
    generation: String,
    schema: &NamespaceConfig,
    revision: u64,
    documents: &Vec<Document>,
    encoded: &Vec<Vec<Vec<u8>>>,
    training: Training,
    config: &IndexConfig,
) -> (result: (IndexStatus, Vec<Entry>))
    requires
        buildable(*schema, documents@, encoded@, training, *config),
    ensures
        status_describes(result.0, *schema, revision, documents@, training),
        result.0.generation@ == generation@,
        entry_views(result.1@) == generation_entries(
            generation_root(namespace@, generation@),
            *schema,
            documents@,
            encoded@,
            training,
        ),
{
    let prefix_text = root(namespace, generation.as_str());
    let prefix = prefix_text.as_str();
    let rows = vectors_of(documents);
    let size = per_block(schema.dimensions);
    let count = training.centroids.len();
    let mut entries: Vec<Entry> = Vec::new();
    let mut cluster_blocks: Vec<usize> = Vec::new();
    let ghost view = rows_view(rows@);
    assert(entry_views(entries@) =~= clusters_entries(
        prefix@,
        view,
        training.assignment@,
        size as nat,
        0,
    ));
    let mut c: usize = 0;
    while c < count
        invariant
            c <= count,
            count == training.centroids@.len(),
            view == rows_view(rows@),
            training.assignment@.len() == rows@.len(),
            1 <= size <= 128,
            cluster_blocks@.len() == c,
            forall|k: int|
                0 <= k < c ==> (#[trigger] cluster_blocks@[k]) == block_count(
                    cluster_rows(view, training.assignment@, k, view.len()).len(),
                    size as nat,
                ),
            entry_views(entries@) == clusters_entries(
                prefix@,
                view,
                training.assignment@,
                size as nat,
                c as nat,
            ),
        decreases count - c,
    {
        let own = rows_of_cluster(&rows, &training.assignment, c);
        let blocks = push_cluster(&mut entries, prefix, c, &own, size);
        assert(rows_view(own@).len() == own@.len());
        cluster_blocks.push(blocks);
        c += 1;
    }
    let ghost vector_part = entry_views(entries@);
    let fields = &schema.text_fields;
    let ghost names = views(fields@);
    let mut text: TextMap<Corpus> = TextMap::new();
    let mut parts: Vec<TextMap<Vec<Posting>>> = Vec::new();
    proof {
        assert(text@ =~= corpora(documents@, names, 0));
        lemma_no_parts(parts@, documents_text_pairs(prefix@, documents@, names, 0));
        assert(vector_part + lengths_entries(prefix@, documents@, names, 0) =~= vector_part);
    }
    let mut i: usize = 0;
    while i < documents.len()
        invariant
            i <= documents@.len() <= u32::MAX,
            names == views(fields@),
            forall|k: int|
                0 <= k < documents@.len() ==> texts_bounded((#[trigger] documents@[k]).attributes@),
            text@ == corpora(documents@, names, i as nat),
            parts_hold(parts@, documents_text_pairs(prefix@, documents@, names, i as nat)),
            entry_views(entries@) == vector_part + lengths_entries(
                prefix@,
                documents@,
                names,
                i as nat,
            ),
        decreases documents@.len() - i,
    {
        let document = &documents[i];
        assert(texts_bounded(documents@[i as int].attributes@));
        let terms = document_terms(document, fields);
        count_terms(&mut text, &terms, documents, i, fields);
        let ghost before = documents_text_pairs(prefix@, documents@, names, i as nat);
        let part = list_terms(prefix, &terms, document.id.as_str());
        let ghost tv = terms_view(terms@);
        proof {
            assert(tv.dom() =~= terms@.dom());
            lemma_viewed_postings(part@);
            lemma_parts_push(
                parts@,
                before,
                part,
                text_pairs(prefix@, tv, document.id@, tv.dom().len()),
            );
        }
        parts.push(part);
        if terms.len() > 0 {
            let ghost start = entry_views(entries@);
            push_entry(
                &mut entries,
                lengths_key_of(prefix, document.id.as_str()),
                EntryValue::Lengths(terms),
            );
            assert(entry_views(entries@) =~= vector_part + lengths_entries(
                prefix@,
                documents@,
                names,
                (i + 1) as nat,
            ));
        }
        i += 1;
    }
    let ghost all = parts@;
    let lists = join_lists(parts);
    proof {
        lemma_parts_joined(
            all,
            documents_text_pairs(prefix@, documents@, names, documents@.len()),
            lists@,
        );
        lemma_viewed_postings(lists@);
    }
    let attributes = attribute_lists(prefix, documents, encoded);
    append_id_lists(&mut entries, &attributes);
    append_posting_lists(&mut entries, &lists);
    let status = IndexStatus {
        generation,
        revision,
        documents: documents.len(),
        vectors: rows.len(),
        centroids: training.centroids,
        cluster_blocks,
        text,
    };
    (status, entries)
}

// ---------------------------------------------------------------------------
// Budgets
// ---------------------------------------------------------------------------
/// The bytes of the first `n` keys and values.
pub open spec fn output_bytes(ops: Seq<Op>, n: nat) -> nat
    decreases n,
{
    if n == 0 {
        0
    } else {
        output_bytes(ops, (n - 1) as nat) + op_bytes(ops[n - 1])
    }
}

pub open spec fn op_bytes(op: Op) -> nat {
    encode_utf8(op.key).len() + match op.value {
        Some(v) => v.len(),
        None => 0,
    }
}

pub fn size_of_op(op: &KeyOp) -> (size: u128)
    ensures
        size == op_bytes(op_view(*op)),
        size <= 2 * usize::MAX,
{
    let key: u128 = op.key.as_str().as_bytes().len() as u128;
    let value: u128 = match &op.value {
        Some(v) => v.len() as u128,
        None => 0,
    };
    key + value
}

pub open spec fn output_verdict(ops: Seq<Op>, config: IndexConfig) -> Verdict {
    if output_bytes(ops, ops.len()) > config.max_build_bytes {
        Err(ErrorView::Limit("index output exceeds index.max_build_bytes"@))
    } else {
        Ok(())
    }
}

/// Checks the encoded entries of a generation against the build budget.
pub fn check_output(ops: &Vec<KeyOp>, config: &IndexConfig) -> (result: Result<()>)
    ensures
        verdict(result) == output_verdict(ops_view(ops@), *config),
{
    let ghost view = ops_view(ops@);
    let mut total: u128 = 0;
    let mut i: usize = 0;
    while i < ops.len()
        invariant
            i <= ops@.len(),
            view == ops_view(ops@),
            total == output_bytes(view, i as nat),
            total <= config.max_build_bytes,
        decreases ops@.len() - i,
    {
        total = total + size_of_op(&ops[i]);
        assert(view[i as int] == op_view(ops@[i as int]));
        i += 1;
        if total > config.max_build_bytes as u128 {
            proof {
                lemma_output_monotonic(view, i as nat, view.len());
            }
            return Err(over_limit("index output exceeds index.max_build_bytes"));
        }
    }
    Ok(())
}

proof fn lemma_output_monotonic(ops: Seq<Op>, a: nat, b: nat)
    requires
        a <= b,
    ensures
        output_bytes(ops, a) <= output_bytes(ops, b),
    decreases b,
{
    if a < b {
        lemma_output_monotonic(ops, a, (b - 1) as nat);
    }
}

pub open spec fn input_size(encoded: usize, vector: Option<usize>) -> int {
    encoded + match vector {
        Some(components) => components * 4,
        None => 0,
    } + 256
}

/// Adds one document to the input of a build: `encoded` bytes and `vector`
/// components. The budget leaves room for training copies and output.
pub fn admit_input(bytes: usize, encoded: usize, vector: Option<usize>, config: &IndexConfig) -> (result: Result<
    usize,
>)
    ensures
        match result {
            Ok(total) => total == bytes + input_size(encoded, vector) && total
                <= config.max_build_bytes / 8,
            Err(e) => bytes + input_size(encoded, vector) > config.max_build_bytes / 8 && e@
                == ErrorView::Limit(
                "index input exceeds build memory budget; raise index.max_build_bytes or partition data"@,
            ),
        },
{
    let data: u128 = match vector {
        Some(components) => components as u128 * 4,
        None => 0,
    };
    let total: u128 = bytes as u128 + encoded as u128 + data + 256;
    if total > (config.max_build_bytes / 8) as u128 {
        return Err(
            over_limit(
                "index input exceeds build memory budget; raise index.max_build_bytes or partition data",
            ),
        );
    }
    Ok(total as usize)
}

// ---------------------------------------------------------------------------
// What an index counts and fits
// ---------------------------------------------------------------------------
/// A vector joins a cluster whose centroid no other exceeds in score, the last of
/// several.
pub proof fn law_vectors_join_the_nearest(scores: Seq<u64>, best: int, other: int)
    requires
        nearest_of(scores, best),
        0 <= other < scores.len(),
    ensures
        0 <= best < scores.len(),
        !nan_double(scores[best]) && !nan_double(scores[other]) ==> double_value(scores[best])
            >= double_value(scores[other]),
        scores[other] == scores[best] ==> other <= best,
{
    law_total_order_ranks_numbers(scores[best], scores[other]);
    law_total_order_ranks_numbers(scores[other], scores[best]);
}

/// A vector block has room for 1 to 128 rows: as many as fit in 256 KiB if each
/// has its components and 130 bytes besides, but no more than 128 and at least
/// one.
pub proof fn law_rows_fit_blocks(dimensions: usize)
    ensures
        ({
            let rows = rows_per_block(Some(dimensions));
            let each = dimensions * 4 + 130;
            &&& 1 <= rows <= 128
            &&& rows > 1 ==> rows * each <= 262144
            &&& rows < 128 ==> (rows + 1) * each > 262144
        }),
        rows_per_block(None) == 128,
{
    let each = dimensions * 4 + 130;
    let fit = 262144int / each;
    vstd::arithmetic::div_mod::lemma_fundamental_div_mod(262144, each);
    let rest = 262144int % each;
    assert(fit * each <= 262144 && (fit + 1) * each > 262144) by (nonlinear_arith)
        requires
            262144 == each * fit + rest,
            0 <= rest < each,
    ;
    let rows = rows_per_block(Some(dimensions)) as int;
    if rows > 1 {
        assert(rows * each <= fit * each) by (nonlinear_arith)
            requires
                rows <= fit,
                each > 0,
        ;
    }
    if rows < 128 {
        assert((rows + 1) * each >= (fit + 1) * each) by (nonlinear_arith)
            requires
                rows >= fit,
                each > 0,
        ;
    }
    assert(262144nat / 134 > 128);
}

/// The size of an index is the sum of its keys and values in bytes, and what a
/// document takes of the memory for building is its JSON, four bytes a component
/// and 256 bytes besides. An index over its budget is refused.
pub proof fn law_index_sizes_add_up(
    ops: Seq<Op>,
    op: Op,
    config: IndexConfig,
    encoded: usize,
    components: usize,
)
    ensures
        output_bytes(Seq::empty(), 0) == 0,
        output_bytes(ops.push(op), ops.len() + 1) == output_bytes(ops, ops.len()) + encode_utf8(
            op.key,
        ).len() + match op.value {
            Some(value) => value.len(),
            None => 0,
        },
        output_verdict(ops, config) is Ok <==> output_bytes(ops, ops.len())
            <= config.max_build_bytes,
        input_size(encoded, Some(components)) == encoded + 4 * components + 256,
        input_size(encoded, None) == encoded + 256,
{
    lemma_output_front(ops, op, ops.len());
}

proof fn lemma_output_front(ops: Seq<Op>, op: Op, n: nat)
    requires
        n <= ops.len(),
    ensures
        output_bytes(ops.push(op), n) == output_bytes(ops, n),
    decreases n,
{
    if n > 0 {
        lemma_output_front(ops, op, (n - 1) as nat);
        assert(ops.push(op)[n - 1] == ops[n - 1]);
    }
}

/// What the status of an index says: the revision and the number of documents
/// that it was built from, how many of them have a vector, and for each field
/// that some document has as text how many have it and how many tokens they have.
pub proof fn law_status_counts(
    status: IndexStatus,
    schema: NamespaceConfig,
    revision: u64,
    documents: Seq<Document>,
    training: Training,
    field: Seq<char>,
)
    requires
        status_describes(status, schema, revision, documents, training),
    ensures
        status.revision == revision,
        status.documents == documents.len(),
        status.vectors == documents.filter(|d: Document| d.vector is Some).len(),
        status.centroids == training.centroids,
        status.text@.contains_key(field) <==> views(schema.text_fields@).contains(field)
            && field_documents(documents, field, documents.len()) > 0,
        field_documents(documents, field, documents.len()) == documents.filter(
            |d: Document|
                d.attributes@.contains_key(field) && d.attributes@[field]@ is Text,
        ).len(),
        field_documents(documents, field, documents.len()) <= u64::MAX
            && status.text@.contains_key(field) ==> status.text@[field].documents
            == field_documents(documents, field, documents.len()),
        field_tokens(documents, field, documents.len()) <= u64::MAX
            && status.text@.contains_key(field) ==> status.text@[field].tokens == field_tokens(
            documents,
            field,
            documents.len(),
        ),
{
    lemma_counts(documents, field, documents.len());
    assert(documents.take(documents.len() as int) =~= documents);
}

proof fn lemma_counts(documents: Seq<Document>, field: Seq<char>, n: nat)
    requires
        n <= documents.len(),
    ensures
        vector_rows_of(documents, n).len() == documents.take(n as int).filter(
            |d: Document| d.vector is Some,
        ).len(),
        field_documents(documents, field, n) == documents.take(n as int).filter(
            |d: Document|
                d.attributes@.contains_key(field) && d.attributes@[field]@ is Text,
        ).len(),
    decreases n,
{
    reveal(Seq::filter);
    if n > 0 {
        lemma_counts(documents, field, (n - 1) as nat);
        assert(documents.take(n as int).drop_last() =~= documents.take(n - 1));
        assert(documents.take(n as int).last() == documents[n - 1]);
    }
}

/// The keys of an index, under the prefix of its generation: `e/` and `r/` and
/// `t/` lists by the digest of the field, and then by the digest of the value, by
/// the number, or by the digest of the term; `v/` clusters and `l/` lengths.
pub proof fn law_index_key_layout(
    prefix: Seq<char>,
    field: Seq<char>,
    value: Seq<u8>,
    bits: u64,
    term: Seq<char>,
    id: Seq<char>,
)
    ensures
        ({
            let of = |text: Seq<char>| hex(sha256(encode_utf8(text)));
            &&& equality_list(prefix, field, value) == prefix + seq!['e', '/'] + of(field) + seq![
                '/',
            ] + hex(sha256(value))
            &&& range_list(prefix, field, bits) == prefix + seq!['r', '/'] + of(field) + seq!['/']
                + number_key_spec(bits)
            &&& term_list(prefix, field, term) == prefix + seq!['t', '/'] + of(field) + seq!['/']
                + of(term)
            &&& lengths_key(prefix, id) == prefix + seq!['l', '/'] + id
        }),
        number_key_spec(bits).len() == 16,
{
    crate::double::lemma_hex_digits_shape(crate::double::sortable(bits) as nat, 16);
}

// ---------------------------------------------------------------------------
// Clusters to begin with
// ---------------------------------------------------------------------------
/// The row that the `i`th of `count` clusters begins with.
pub open spec fn spread_position(i: int, count: int, rows: int) -> int {
    i * rows / count
}

pub open spec fn clusters_for(clusters: int, vectors: int) -> int {
    vstd::math::min(clusters, vectors)
}

/// Clusters begin with different rows, spread evenly over all of them: one after
/// the other, the first with the first row.
pub proof fn law_centroids_spread(i: int, count: int, rows: int)
    requires
        0 <= i,
        i + 1 < count <= rows,
    ensures
        spread_position(0, count, rows) == 0,
        spread_position(i, count, rows) < spread_position(i + 1, count, rows) < rows,
        spread_position(i, count, rows) * count <= i * rows < (spread_position(i, count, rows) + 1)
            * count,
{
    let a = spread_position(i, count, rows);
    let b = spread_position(i + 1, count, rows);
    assert(0 * rows / count == 0) by (nonlinear_arith)
        requires
            count > 0,
    ;
    vstd::arithmetic::div_mod::lemma_fundamental_div_mod(i * rows, count);
    vstd::arithmetic::div_mod::lemma_fundamental_div_mod((i + 1) * rows, count);
    let r = (i * rows) % count;
    let s = ((i + 1) * rows) % count;
    assert(a * count <= i * rows < (a + 1) * count) by (nonlinear_arith)
        requires
            i * rows == count * a + r,
            0 <= r < count,
    ;
    assert(b * count <= (i + 1) * rows < (b + 1) * count) by (nonlinear_arith)
        requires
            (i + 1) * rows == count * b + s,
            0 <= s < count,
    ;
    assert(a < b) by (nonlinear_arith)
        requires
            a * count <= i * rows,
            (i + 1) * rows < (b + 1) * count,
            count <= rows,
            count > 0,
    ;
    assert(b < rows) by (nonlinear_arith)
        requires
            b * count <= (i + 1) * rows,
            i + 1 < count,
            0 < count <= rows,
    ;
}

/// There are as many clusters as configured, but no more than vectors.
pub proof fn law_cluster_counts(clusters: int, vectors: int)
    ensures
        clusters_for(clusters, vectors) <= clusters,
        clusters_for(clusters, vectors) <= vectors,
        clusters_for(clusters, vectors) == clusters || clusters_for(clusters, vectors) == vectors,
{
}

/// The entries of an index show their keys and what is stored under them.
pub proof fn law_entries_show_their_values(entries: Seq<Entry>, i: int)
    requires
        0 <= i < entries.len(),
    ensures
        entry_views(entries).len() == entries.len(),
        entry_views(entries)[i].key == entries[i].key@,
        entries[i].value matches EntryValue::Vectors(bytes) ==> entry_views(entries)[i].value
            == EntryValueView::Vectors(bytes@),
        entries[i].value matches EntryValue::Lengths(terms) ==> entry_views(entries)[i].value
            == EntryValueView::Lengths(terms_view(terms@)),
        entries[i].value matches EntryValue::Ids(ids) ==> entry_views(entries)[i].value
            == EntryValueView::Ids(views(ids@)),
        entries[i].value matches EntryValue::Postings(items) ==> entry_views(entries)[i].value
            == EntryValueView::Postings(posting_views(items@)),
{
}

} // verus!
