//! The entries of an index generation, key by key: what is stored where, and what
//! a read of the store brings back.
use vstd::prelude::*;
use vstd::utf8::*;

use crate::agreement::distinct_documents;
use crate::binary::Row;
use crate::index::{
    block_key, cluster_block_key, cluster_entries, cluster_rows, clusters_entries, documents_pairs,
    documents_text_pairs, encoded_rows, equality_list, field_pairs, generation_entries, id_blocks,
    id_entries, lengths_entries, lengths_key, posting_blocks, posting_entries, range_list,
    rows_per_block, term_list, text_pairs, attribute_pairs, document_pairs, vector_rows_of,
    EntryValueView, EntryView, Training, POSTINGS_PER_BLOCK,
};
use crate::json::as_double_spec;
use crate::double::finite_double;
use crate::model::{Document, NamespaceConfig};
use crate::postings::{
    block_count, grouped, items_of, lemma_grouped, lemma_items_of_contains, list_block, Pair,
    PostingView,
};
use crate::terms::{field_terms, TermsView};
use crate::text::{lemma_first_slash, lemma_last_slash, lemma_padded, padded, views};
use crate::textmap::{lemma_ascending_distinct, lemma_ordered_exists, ordered};

verus! {

// ---------------------------------------------------------------------------
// Keys
// ---------------------------------------------------------------------------
/// No two entries have the same key.
pub open spec fn keys_distinct(entries: Seq<EntryView>) -> bool {
    forall|i: int, j: int|
        #![trigger entries[i], entries[j]]
        0 <= i < j < entries.len() ==> entries[i].key != entries[j].key
}

/// The key continues the prefix with one of two kinds.
pub open spec fn of_kind(prefix: Seq<char>, key: Seq<char>, a: char, b: char) -> bool {
    &&& key.len() > prefix.len()
    &&& key.take(prefix.len() as int) == prefix
    &&& key[prefix.len() as int] == a || key[prefix.len() as int] == b
}

pub proof fn lemma_concat_member<T>(a: Seq<T>, b: Seq<T>, x: T)
    ensures
        (a + b).contains(x) == (a.contains(x) || b.contains(x)),
{
    let c = a + b;
    if c.contains(x) {
        let i = choose|i: int| 0 <= i < c.len() && c[i] == x;
        if i < a.len() {
            assert(a[i] == x);
        } else {
            assert(b[i - a.len()] == x);
        }
    }
    if a.contains(x) {
        let i = choose|i: int| 0 <= i < a.len() && a[i] == x;
        assert(c[i] == x);
    }
    if b.contains(x) {
        let i = choose|i: int| 0 <= i < b.len() && b[i] == x;
        assert(c[a.len() + i] == x);
    }
}

proof fn lemma_distinct_concat(a: Seq<EntryView>, b: Seq<EntryView>)
    requires
        keys_distinct(a),
        keys_distinct(b),
        forall|i: int, j: int|
            #![trigger a[i], b[j]]
            0 <= i < a.len() && 0 <= j < b.len() ==> a[i].key != b[j].key,
    ensures
        keys_distinct(a + b),
{
    let c = a + b;
    assert forall|i: int, j: int|
        #![trigger c[i], c[j]]
        0 <= i < j < c.len() implies c[i].key != c[j].key by {
        if j < a.len() {
            assert(c[i] == a[i] && c[j] == a[j]);
        } else if i < a.len() {
            assert(c[i] == a[i] && c[j] == b[j - a.len()]);
        } else {
            assert(c[i] == b[i - a.len()] && c[j] == b[j - a.len()]);
        }
    }
}

/// A block's list and number can be read off its key.
pub proof fn lemma_block_key_identifies(l1: Seq<char>, b1: nat, l2: Seq<char>, b2: nat)
    requires
        block_key(l1, b1) == block_key(l2, b2),
    ensures
        l1 == l2,
        b1 == b2,
{
    lemma_padded(b1, 8);
    lemma_padded(b2, 8);
    lemma_last_slash(l1, padded(b1, 8), l2, padded(b2, 8));
}

/// A cluster and a block number can be read off a key.
proof fn lemma_cluster_key_identifies(prefix: Seq<char>, c1: nat, b1: nat, c2: nat, b2: nat)
    requires
        cluster_block_key(prefix, c1, b1) == cluster_block_key(prefix, c2, b2),
    ensures
        c1 == c2,
        b1 == b2,
{
    let head = prefix + seq!['v', '/'];
    let n = head.len() as int;
    assert(cluster_block_key(prefix, c1, b1).skip(n) =~= padded(c1, 4) + seq!['/'] + padded(b1, 8));
    assert(cluster_block_key(prefix, c2, b2).skip(n) =~= padded(c2, 4) + seq!['/'] + padded(b2, 8));
    lemma_padded(c1, 4);
    lemma_padded(c2, 4);
    lemma_padded(b1, 8);
    lemma_padded(b2, 8);
    lemma_first_slash(padded(c1, 4), padded(b1, 8), padded(c2, 4), padded(b2, 8));
}

// ---------------------------------------------------------------------------
// Vector blocks
// ---------------------------------------------------------------------------
/// Block `b` of a cluster.
pub open spec fn cluster_entry(
    prefix: Seq<char>,
    cluster: nat,
    rows: Seq<Row>,
    size: nat,
    b: nat,
) -> EntryView {
    EntryView {
        key: cluster_block_key(prefix, cluster, b),
        value: EntryValueView::Vectors(encoded_rows(list_block(rows, size, b))),
    }
}

proof fn lemma_cluster_blocks(prefix: Seq<char>, cluster: nat, rows: Seq<Row>, size: nat, n: nat)
    ensures
        cluster_entries(prefix, cluster, rows, size, n).len() == n,
        forall|b: int|
            0 <= b < n ==> #[trigger] cluster_entries(prefix, cluster, rows, size, n)[b]
                == cluster_entry(prefix, cluster, rows, size, b as nat),
    decreases n,
{
    if n > 0 {
        lemma_cluster_blocks(prefix, cluster, rows, size, (n - 1) as nat);
    }
}

/// The entries of the first `n` clusters are exactly their blocks.
proof fn lemma_clusters_entries(
    prefix: Seq<char>,
    rows: Seq<Row>,
    assignment: Seq<usize>,
    size: nat,
    n: nat,
    entry: EntryView,
)
    ensures
        clusters_entries(prefix, rows, assignment, size, n).contains(entry) <==> exists|
            c: nat,
            b: nat,
        |
            c < n && b < block_count(
                cluster_rows(rows, assignment, c as int, rows.len()).len(),
                size,
            ) && entry == #[trigger] cluster_entry(
                prefix,
                c,
                cluster_rows(rows, assignment, c as int, rows.len()),
                size,
                b,
            ),
    decreases n,
{
    if n > 0 {
        let m = (n - 1) as nat;
        lemma_clusters_entries(prefix, rows, assignment, size, m, entry);
        let mine = cluster_rows(rows, assignment, m as int, rows.len());
        let count = block_count(mine.len(), size);
        let front = clusters_entries(prefix, rows, assignment, size, m);
        let own = cluster_entries(prefix, m, mine, size, count);
        lemma_cluster_blocks(prefix, m, mine, size, count);
        lemma_concat_member(front, own, entry);
        if own.contains(entry) {
            let b = choose|b: int| 0 <= b < own.len() && own[b] == entry;
            assert(entry == cluster_entry(
                prefix,
                m,
                cluster_rows(rows, assignment, m as int, rows.len()),
                size,
                b as nat,
            ));
        }
        if exists|c: nat, b: nat|
            c < n && b < block_count(
                cluster_rows(rows, assignment, c as int, rows.len()).len(),
                size,
            ) && entry == #[trigger] cluster_entry(
                prefix,
                c,
                cluster_rows(rows, assignment, c as int, rows.len()),
                size,
                b,
            ) {
            let (c, b) = choose|c: nat, b: nat|
                c < n && b < block_count(
                    cluster_rows(rows, assignment, c as int, rows.len()).len(),
                    size,
                ) && entry == #[trigger] cluster_entry(
                    prefix,
                    c,
                    cluster_rows(rows, assignment, c as int, rows.len()),
                    size,
                    b,
                );
            if c == m {
                assert(own[b as int] == entry);
                assert(own.contains(entry));
            }
        }
    }
}

proof fn lemma_clusters_keys(
    prefix: Seq<char>,
    rows: Seq<Row>,
    assignment: Seq<usize>,
    size: nat,
    n: nat,
)
    ensures
        keys_distinct(clusters_entries(prefix, rows, assignment, size, n)),
    decreases n,
{
    if n > 0 {
        let m = (n - 1) as nat;
        lemma_clusters_keys(prefix, rows, assignment, size, m);
        let mine = cluster_rows(rows, assignment, m as int, rows.len());
        let count = block_count(mine.len(), size);
        let front = clusters_entries(prefix, rows, assignment, size, m);
        let own = cluster_entries(prefix, m, mine, size, count);
        lemma_cluster_blocks(prefix, m, mine, size, count);
        assert forall|i: int, j: int|
            #![trigger own[i], own[j]]
            0 <= i < j < own.len() implies own[i].key != own[j].key by {
            if own[i].key == own[j].key {
                lemma_cluster_key_identifies(prefix, m, i as nat, m, j as nat);
            }
        }
        assert forall|i: int, j: int|
            #![trigger front[i], own[j]]
            0 <= i < front.len() && 0 <= j < own.len() implies front[i].key != own[j].key by {
            lemma_clusters_entries(prefix, rows, assignment, size, m, front[i]);
            assert(front.contains(front[i]));
            let (c, b) = choose|c: nat, b: nat|
                c < m && b < block_count(
                    cluster_rows(rows, assignment, c as int, rows.len()).len(),
                    size,
                ) && front[i] == #[trigger] cluster_entry(
                    prefix,
                    c,
                    cluster_rows(rows, assignment, c as int, rows.len()),
                    size,
                    b,
                );
            if front[i].key == own[j].key {
                lemma_cluster_key_identifies(prefix, c, b, m, j as nat);
            }
        }
        lemma_distinct_concat(front, own);
    }
}

// ---------------------------------------------------------------------------
// Lengths
// ---------------------------------------------------------------------------
/// The entry of a document with searchable text.
pub open spec fn length_entry(prefix: Seq<char>, document: Document, fields: Seq<Seq<char>>) -> EntryView {
    EntryView {
        key: lengths_key(prefix, document.id@),
        value: EntryValueView::Lengths(field_terms(document.attributes@, fields)),
    }
}

proof fn lemma_lengths_entries(
    prefix: Seq<char>,
    documents: Seq<Document>,
    fields: Seq<Seq<char>>,
    n: nat,
    entry: EntryView,
)
    requires
        n <= documents.len(),
    ensures
        lengths_entries(prefix, documents, fields, n).contains(entry) <==> exists|i: int|
            0 <= i < n && field_terms(documents[i].attributes@, fields).dom().len() > 0 && entry
                == #[trigger] length_entry(prefix, documents[i], fields),
    decreases n,
{
    if n > 0 {
        let m = (n - 1) as nat;
        lemma_lengths_entries(prefix, documents, fields, m, entry);
        let front = lengths_entries(prefix, documents, fields, m);
        let own = length_entry(prefix, documents[m as int], fields);
        if field_terms(documents[m as int].attributes@, fields).dom().len() > 0 {
            crate::search::lemma_push_contains(front, own, entry);
        }
    }
}

proof fn lemma_lengths_keys(
    prefix: Seq<char>,
    documents: Seq<Document>,
    fields: Seq<Seq<char>>,
    n: nat,
)
    requires
        n <= documents.len(),
        distinct_documents(documents),
    ensures
        keys_distinct(lengths_entries(prefix, documents, fields, n)),
    decreases n,
{
    if n > 0 {
        let m = (n - 1) as nat;
        lemma_lengths_keys(prefix, documents, fields, m);
        let front = lengths_entries(prefix, documents, fields, m);
        let all = lengths_entries(prefix, documents, fields, n);
        if field_terms(documents[m as int].attributes@, fields).dom().len() > 0 {
            assert forall|i: int, j: int|
                #![trigger all[i], all[j]]
                0 <= i < j < all.len() implies all[i].key != all[j].key by {
                assert(all[i] == front[i]);
                if j < front.len() {
                    assert(all[j] == front[j]);
                } else {
                    lemma_lengths_entries(prefix, documents, fields, m, front[i]);
                    assert(front.contains(front[i]));
                    let k = choose|k: int|
                        0 <= k < m && field_terms(
                            documents[k].attributes@,
                            fields,
                        ).dom().len() > 0 && front[i] == #[trigger] length_entry(
                            prefix,
                            documents[k],
                            fields,
                        );
                    assert(documents[k].id@ != documents[m as int].id@);
                    lemma_lengths_key_identifies(prefix, documents[k].id@, documents[m as int].id@);
                }
            }
        }
    }
}

proof fn lemma_lengths_key_identifies(prefix: Seq<char>, a: Seq<char>, b: Seq<char>)
    requires
        a != b,
    ensures
        lengths_key(prefix, a) != lengths_key(prefix, b),
{
    let n = prefix.len() as int + 2;
    assert(lengths_key(prefix, a).skip(n) =~= a);
    assert(lengths_key(prefix, b).skip(n) =~= b);
}

// ---------------------------------------------------------------------------
// Posting blocks
// ---------------------------------------------------------------------------
proof fn lemma_id_blocks(key: Seq<char>, list: Seq<Seq<char>>, n: nat)
    ensures
        id_blocks(key, list, n).len() == n,
        forall|b: int|
            0 <= b < n ==> #[trigger] id_blocks(key, list, n)[b] == id_entry(
                key,
                list,
                b as nat,
            ),
    decreases n,
{
    if n > 0 {
        lemma_id_blocks(key, list, (n - 1) as nat);
    }
}

/// Block `b` of a list.
pub open spec fn id_entry(key: Seq<char>, list: Seq<Seq<char>>, b: nat) -> EntryView {
    EntryView {
        key: block_key(key, b),
        value: EntryValueView::Ids(list_block(list, POSTINGS_PER_BLOCK as nat, b)),
    }
}

/// The entries of the first `n` lists are exactly their blocks.
proof fn lemma_id_entries(lists: Map<Seq<char>, Seq<Seq<char>>>, n: nat, entry: EntryView)
    requires
        n <= ordered(lists.dom()).len(),
    ensures
        id_entries(lists, n).contains(entry) <==> exists|k: int, b: nat|
            0 <= k < n && b < block_count(
                lists[ordered(lists.dom())[k]].len(),
                POSTINGS_PER_BLOCK as nat,
            ) && entry == #[trigger] id_entry(
                ordered(lists.dom())[k],
                lists[ordered(lists.dom())[k]],
                b,
            ),
    decreases n,
{
    let names = ordered(lists.dom());
    if n > 0 {
        let m = (n - 1) as nat;
        lemma_id_entries(lists, m, entry);
        let key = names[m as int];
        let count = block_count(lists[key].len(), POSTINGS_PER_BLOCK as nat);
        let front = id_entries(lists, m);
        let own = id_blocks(key, lists[key], count);
        let all = id_entries(lists, n);
        lemma_id_blocks(key, lists[key], count);
        lemma_concat_member(front, own, entry);
        if own.contains(entry) {
            let b = choose|b: int| 0 <= b < own.len() && own[b] == entry;
            assert(entry == id_entry(names[m as int], lists[names[m as int]], b as nat));
        }
        if exists|k: int, b: nat|
            0 <= k < n && b < block_count(
                lists[names[k]].len(),
                POSTINGS_PER_BLOCK as nat,
            ) && entry == #[trigger] id_entry(names[k], lists[names[k]], b) {
            let (k, b) = choose|k: int, b: nat|
                0 <= k < n && b < block_count(
                    lists[names[k]].len(),
                    POSTINGS_PER_BLOCK as nat,
                ) && entry == #[trigger] id_entry(names[k], lists[names[k]], b);
            if k == m {
                assert(own[b as int] == entry);
                assert(own.contains(entry));
            }
        }
    }
}

proof fn lemma_id_keys(lists: Map<Seq<char>, Seq<Seq<char>>>, n: nat)
    requires
        lists.dom().finite(),
        n <= ordered(lists.dom()).len(),
    ensures
        keys_distinct(id_entries(lists, n)),
    decreases n,
{
    let names = ordered(lists.dom());
    if n > 0 {
        let m = (n - 1) as nat;
        lemma_id_keys(lists, m);
        lemma_ordered_exists(lists.dom());
        lemma_ascending_distinct(names);
        let key = names[m as int];
        let count = block_count(lists[key].len(), POSTINGS_PER_BLOCK as nat);
        let front = id_entries(lists, m);
        let own = id_blocks(key, lists[key], count);
        lemma_id_blocks(key, lists[key], count);
        assert forall|i: int, j: int|
            #![trigger own[i], own[j]]
            0 <= i < j < own.len() implies own[i].key != own[j].key by {
            if own[i].key == own[j].key {
                lemma_block_key_identifies(key, i as nat, key, j as nat);
            }
        }
        assert forall|i: int, j: int|
            #![trigger front[i], own[j]]
            0 <= i < front.len() && 0 <= j < own.len() implies front[i].key != own[j].key by {
            lemma_id_entries(lists, m, front[i]);
            assert(front.contains(front[i]));
            let (k, b) = choose|k: int, b: nat|
                0 <= k < m && b < block_count(
                    lists[names[k]].len(),
                    POSTINGS_PER_BLOCK as nat,
                ) && front[i] == #[trigger] id_entry(names[k], lists[names[k]], b);
            if front[i].key == own[j].key {
                lemma_block_key_identifies(names[k], b, key, j as nat);
            }
        }
        lemma_distinct_concat(front, own);
    }
}

proof fn lemma_posting_blocks(key: Seq<char>, list: Seq<PostingView>, n: nat)
    ensures
        posting_blocks(key, list, n).len() == n,
        forall|b: int|
            0 <= b < n ==> #[trigger] posting_blocks(key, list, n)[b] == posting_entry(
                key,
                list,
                b as nat,
            ),
    decreases n,
{
    if n > 0 {
        lemma_posting_blocks(key, list, (n - 1) as nat);
    }
}

/// Block `b` of a list.
pub open spec fn posting_entry(key: Seq<char>, list: Seq<PostingView>, b: nat) -> EntryView {
    EntryView {
        key: block_key(key, b),
        value: EntryValueView::Postings(list_block(list, POSTINGS_PER_BLOCK as nat, b)),
    }
}

/// The entries of the first `n` lists are exactly their blocks.
proof fn lemma_posting_entries(lists: Map<Seq<char>, Seq<PostingView>>, n: nat, entry: EntryView)
    requires
        n <= ordered(lists.dom()).len(),
    ensures
        posting_entries(lists, n).contains(entry) <==> exists|k: int, b: nat|
            0 <= k < n && b < block_count(
                lists[ordered(lists.dom())[k]].len(),
                POSTINGS_PER_BLOCK as nat,
            ) && entry == #[trigger] posting_entry(
                ordered(lists.dom())[k],
                lists[ordered(lists.dom())[k]],
                b,
            ),
    decreases n,
{
    let names = ordered(lists.dom());
    if n > 0 {
        let m = (n - 1) as nat;
        lemma_posting_entries(lists, m, entry);
        let key = names[m as int];
        let count = block_count(lists[key].len(), POSTINGS_PER_BLOCK as nat);
        let front = posting_entries(lists, m);
        let own = posting_blocks(key, lists[key], count);
        let all = posting_entries(lists, n);
        lemma_posting_blocks(key, lists[key], count);
        lemma_concat_member(front, own, entry);
        if own.contains(entry) {
            let b = choose|b: int| 0 <= b < own.len() && own[b] == entry;
            assert(entry == posting_entry(names[m as int], lists[names[m as int]], b as nat));
        }
        if exists|k: int, b: nat|
            0 <= k < n && b < block_count(
                lists[names[k]].len(),
                POSTINGS_PER_BLOCK as nat,
            ) && entry == #[trigger] posting_entry(names[k], lists[names[k]], b) {
            let (k, b) = choose|k: int, b: nat|
                0 <= k < n && b < block_count(
                    lists[names[k]].len(),
                    POSTINGS_PER_BLOCK as nat,
                ) && entry == #[trigger] posting_entry(names[k], lists[names[k]], b);
            if k == m {
                assert(own[b as int] == entry);
                assert(own.contains(entry));
            }
        }
    }
}

proof fn lemma_posting_keys(lists: Map<Seq<char>, Seq<PostingView>>, n: nat)
    requires
        lists.dom().finite(),
        n <= ordered(lists.dom()).len(),
    ensures
        keys_distinct(posting_entries(lists, n)),
    decreases n,
{
    let names = ordered(lists.dom());
    if n > 0 {
        let m = (n - 1) as nat;
        lemma_posting_keys(lists, m);
        lemma_ordered_exists(lists.dom());
        lemma_ascending_distinct(names);
        let key = names[m as int];
        let count = block_count(lists[key].len(), POSTINGS_PER_BLOCK as nat);
        let front = posting_entries(lists, m);
        let own = posting_blocks(key, lists[key], count);
        lemma_posting_blocks(key, lists[key], count);
        assert forall|i: int, j: int|
            #![trigger own[i], own[j]]
            0 <= i < j < own.len() implies own[i].key != own[j].key by {
            if own[i].key == own[j].key {
                lemma_block_key_identifies(key, i as nat, key, j as nat);
            }
        }
        assert forall|i: int, j: int|
            #![trigger front[i], own[j]]
            0 <= i < front.len() && 0 <= j < own.len() implies front[i].key != own[j].key by {
            lemma_posting_entries(lists, m, front[i]);
            assert(front.contains(front[i]));
            let (k, b) = choose|k: int, b: nat|
                0 <= k < m && b < block_count(
                    lists[names[k]].len(),
                    POSTINGS_PER_BLOCK as nat,
                ) && front[i] == #[trigger] posting_entry(names[k], lists[names[k]], b);
            if front[i].key == own[j].key {
                lemma_block_key_identifies(names[k], b, key, j as nat);
            }
        }
        lemma_distinct_concat(front, own);
    }
}

// ---------------------------------------------------------------------------
// List keys
// ---------------------------------------------------------------------------
pub proof fn lemma_grouped_finite<T>(pairs: Seq<Pair<T>>)
    ensures
        grouped(pairs).dom().finite(),
    decreases pairs.len(),
{
    if pairs.len() > 0 {
        lemma_grouped_finite(pairs.drop_last());
    }
}

/// The key of a list that an attribute joins.
pub open spec fn attribute_list(
    prefix: Seq<char>,
    key: Seq<char>,
    field: Seq<char>,
    encoded: Seq<u8>,
    bits: u64,
) -> bool {
    key == equality_list(prefix, field, encoded) || (finite_double(bits) && key == range_list(
        prefix,
        field,
        bits,
    ))
}

pub open spec fn is_attribute_list(prefix: Seq<char>, key: Seq<char>) -> bool {
    exists|field: Seq<char>, encoded: Seq<u8>, bits: u64| #[trigger]
        attribute_list(prefix, key, field, encoded, bits)
}

proof fn lemma_document_pair(
    prefix: Seq<char>,
    document: Document,
    encoded: Seq<Vec<u8>>,
    n: nat,
    i: int,
)
    requires
        0 <= i < document_pairs(prefix, document, encoded, n).len(),
    ensures
        is_attribute_list(prefix, document_pairs(prefix, document, encoded, n)[i].key),
    decreases n,
{
    if n > 0 {
        let m = (n - 1) as nat;
        let field = ordered(document.attributes@.dom())[n - 1];
        let value = document.attributes@[field]@;
        let front = document_pairs(prefix, document, encoded, m);
        let own = attribute_pairs(prefix, field, value, encoded[n - 1]@, document.id@);
        let pair = document_pairs(prefix, document, encoded, n)[i];
        if i < front.len() {
            lemma_document_pair(prefix, document, encoded, m, i);
            assert(pair == front[i]);
        } else {
            assert(pair == own[i - front.len()]);
            let bits = match as_double_spec(value) {
                Some(bits) => bits,
                None => 0u64,
            };
            assert(attribute_list(prefix, pair.key, field, encoded[n - 1]@, bits));
        }
    }
}

proof fn lemma_documents_pair(
    prefix: Seq<char>,
    documents: Seq<Document>,
    encoded: Seq<Vec<Vec<u8>>>,
    n: nat,
    i: int,
)
    requires
        0 <= i < documents_pairs(prefix, documents, encoded, n).len(),
    ensures
        is_attribute_list(prefix, documents_pairs(prefix, documents, encoded, n)[i].key),
    decreases n,
{
    if n > 0 {
        let m = (n - 1) as nat;
        let front = documents_pairs(prefix, documents, encoded, m);
        let size = documents[n - 1].attributes@.dom().len();
        let own = document_pairs(prefix, documents[n - 1], encoded[n - 1]@, size);
        let pair = documents_pairs(prefix, documents, encoded, n)[i];
        if i < front.len() {
            lemma_documents_pair(prefix, documents, encoded, m, i);
            assert(pair == front[i]);
        } else {
            assert(pair == own[i - front.len()]);
            lemma_document_pair(
                prefix,
                documents[n - 1],
                encoded[n - 1]@,
                size,
                i - front.len(),
            );
        }
    }
}

/// Every attribute list of a generation has the key of a value or of a number.
pub proof fn lemma_attribute_lists(
    prefix: Seq<char>,
    documents: Seq<Document>,
    encoded: Seq<Vec<Vec<u8>>>,
    n: nat,
    key: Seq<char>,
)
    requires
        grouped(documents_pairs(prefix, documents, encoded, n)).contains_key(key),
    ensures
        is_attribute_list(prefix, key),
{
    let pairs = documents_pairs(prefix, documents, encoded, n);
    lemma_grouped(pairs, key);
    let items = items_of(pairs, key);
    assert(items.contains(items[0]));
    lemma_items_of_contains(pairs, key, items[0]);
    let i = choose|i: int|
        0 <= i < pairs.len() && (#[trigger] pairs[i]).key == key && pairs[i].item == items[0];
    lemma_documents_pair(prefix, documents, encoded, n, i);
}

pub open spec fn is_term_list(prefix: Seq<char>, key: Seq<char>) -> bool {
    exists|field: Seq<char>, term: Seq<char>| key == #[trigger] term_list(prefix, field, term)
}

proof fn lemma_field_pair(
    prefix: Seq<char>,
    field: Seq<char>,
    terms: TermsView,
    id: Seq<char>,
    n: nat,
    i: int,
)
    requires
        0 <= i < field_pairs(prefix, field, terms, id, n).len(),
    ensures
        is_term_list(prefix, field_pairs(prefix, field, terms, id, n)[i].key),
    decreases n,
{
    if n > 0 {
        let m = (n - 1) as nat;
        let front = field_pairs(prefix, field, terms, id, m);
        let pair = field_pairs(prefix, field, terms, id, n)[i];
        if i < front.len() {
            lemma_field_pair(prefix, field, terms, id, m, i);
            assert(pair == front[i]);
        } else {
            let term = ordered(terms.frequencies.dom())[n - 1];
            assert(pair.key == term_list(prefix, field, term));
        }
    }
}

proof fn lemma_text_pair(
    prefix: Seq<char>,
    terms: Map<Seq<char>, TermsView>,
    id: Seq<char>,
    n: nat,
    i: int,
)
    requires
        0 <= i < text_pairs(prefix, terms, id, n).len(),
    ensures
        is_term_list(prefix, text_pairs(prefix, terms, id, n)[i].key),
    decreases n,
{
    if n > 0 {
        let m = (n - 1) as nat;
        let field = ordered(terms.dom())[n - 1];
        let front = text_pairs(prefix, terms, id, m);
        let size = terms[field].frequencies.dom().len();
        let own = field_pairs(prefix, field, terms[field], id, size);
        let pair = text_pairs(prefix, terms, id, n)[i];
        if i < front.len() {
            lemma_text_pair(prefix, terms, id, m, i);
            assert(pair == front[i]);
        } else {
            assert(pair == own[i - front.len()]);
            lemma_field_pair(prefix, field, terms[field], id, size, i - front.len());
        }
    }
}

proof fn lemma_documents_text_pair(
    prefix: Seq<char>,
    documents: Seq<Document>,
    fields: Seq<Seq<char>>,
    n: nat,
    i: int,
)
    requires
        0 <= i < documents_text_pairs(prefix, documents, fields, n).len(),
    ensures
        is_term_list(prefix, documents_text_pairs(prefix, documents, fields, n)[i].key),
    decreases n,
{
    if n > 0 {
        let m = (n - 1) as nat;
        let terms = field_terms(documents[n - 1].attributes@, fields);
        let front = documents_text_pairs(prefix, documents, fields, m);
        let own = text_pairs(prefix, terms, documents[n - 1].id@, terms.dom().len());
        let pair = documents_text_pairs(prefix, documents, fields, n)[i];
        if i < front.len() {
            lemma_documents_text_pair(prefix, documents, fields, m, i);
            assert(pair == front[i]);
        } else {
            assert(pair == own[i - front.len()]);
            lemma_text_pair(
                prefix,
                terms,
                documents[n - 1].id@,
                terms.dom().len(),
                i - front.len(),
            );
        }
    }
}

/// Every text list of a generation has the key of a term.
pub proof fn lemma_term_lists(
    prefix: Seq<char>,
    documents: Seq<Document>,
    fields: Seq<Seq<char>>,
    n: nat,
    key: Seq<char>,
)
    requires
        grouped(documents_text_pairs(prefix, documents, fields, n)).contains_key(key),
    ensures
        is_term_list(prefix, key),
{
    let pairs = documents_text_pairs(prefix, documents, fields, n);
    lemma_grouped(pairs, key);
    let items = items_of(pairs, key);
    assert(items.contains(items[0]));
    lemma_items_of_contains(pairs, key, items[0]);
    let i = choose|i: int|
        0 <= i < pairs.len() && (#[trigger] pairs[i]).key == key && pairs[i].item == items[0];
    lemma_documents_text_pair(prefix, documents, fields, n, i);
}

// ---------------------------------------------------------------------------
// A generation as a whole
// ---------------------------------------------------------------------------
/// What a generation is built from.
pub struct Generation {
    pub prefix: Seq<char>,
    pub schema: NamespaceConfig,
    pub documents: Seq<Document>,
    pub encoded: Seq<Vec<Vec<u8>>>,
    pub training: Training,
}

impl Generation {
    pub open spec fn entries(self) -> Seq<EntryView> {
        generation_entries(
            self.prefix,
            self.schema,
            self.documents,
            self.encoded,
            self.training,
        )
    }

    /// The searchable text fields.
    pub open spec fn fields(self) -> Seq<Seq<char>> {
        views(self.schema.text_fields@)
    }

    /// The rows of the documents that have a vector.
    pub open spec fn rows(self) -> Seq<Row> {
        vector_rows_of(self.documents, self.documents.len())
    }

    pub open spec fn clusters(self) -> nat {
        self.training.centroids@.len()
    }

    /// The rows of one cluster.
    pub open spec fn cluster(self, c: int) -> Seq<Row> {
        cluster_rows(self.rows(), self.training.assignment@, c, self.rows().len())
    }

    /// How many rows a block holds at most.
    pub open spec fn rows_per_block(self) -> nat {
        rows_per_block(self.schema.dimensions)
    }

    /// The IDs by attribute list.
    pub open spec fn attribute_lists(self) -> Map<Seq<char>, Seq<Seq<char>>> {
        grouped(
            documents_pairs(self.prefix, self.documents, self.encoded, self.documents.len()),
        )
    }

    /// The postings by term list.
    pub open spec fn text_lists(self) -> Map<Seq<char>, Seq<PostingView>> {
        grouped(
            documents_text_pairs(
                self.prefix,
                self.documents,
                self.fields(),
                self.documents.len(),
            ),
        )
    }

    /// The entries by key, as a store holds them.
    pub open spec fn store(self) -> Store {
        stored(self.entries(), self.entries().len())
    }
}

/// What is stored under each key.
pub type Store = Map<Seq<char>, EntryValueView>;

/// The first `n` entries, each put under its key.
pub open spec fn stored(entries: Seq<EntryView>, n: nat) -> Store
    decreases n,
{
    if n == 0 {
        Map::empty()
    } else {
        stored(entries, (n - 1) as nat).insert(entries[n - 1].key, entries[n - 1].value)
    }
}

pub open spec fn is_vector_entry(g: Generation, entry: EntryView) -> bool {
    exists|c: nat, b: nat|
        c < g.clusters() && b < block_count(g.cluster(c as int).len(), g.rows_per_block()) && entry
            == #[trigger] cluster_entry(
            g.prefix,
            c,
            g.cluster(c as int),
            g.rows_per_block(),
            b,
        )
}

pub open spec fn is_length_entry(g: Generation, entry: EntryView) -> bool {
    exists|i: int|
        0 <= i < g.documents.len() && field_terms(
            g.documents[i].attributes@,
            g.fields(),
        ).dom().len() > 0 && entry == #[trigger] length_entry(
            g.prefix,
            g.documents[i],
            g.fields(),
        )
}

pub open spec fn is_id_entry(g: Generation, entry: EntryView) -> bool {
    exists|list: Seq<char>, b: nat|
        g.attribute_lists().contains_key(list) && b < block_count(
            g.attribute_lists()[list].len(),
            POSTINGS_PER_BLOCK as nat,
        ) && entry == #[trigger] id_entry(list, g.attribute_lists()[list], b)
}

pub open spec fn is_posting_entry(g: Generation, entry: EntryView) -> bool {
    exists|list: Seq<char>, b: nat|
        g.text_lists().contains_key(list) && b < block_count(
            g.text_lists()[list].len(),
            POSTINGS_PER_BLOCK as nat,
        ) && entry == #[trigger] posting_entry(list, g.text_lists()[list], b)
}

proof fn lemma_id_part(g: Generation, entry: EntryView)
    ensures
        id_entries(g.attribute_lists(), g.attribute_lists().dom().len()).contains(entry)
            <==> is_id_entry(g, entry),
{
    let lists = g.attribute_lists();
    let names = ordered(lists.dom());
    lemma_grouped_finite(
        documents_pairs(g.prefix, g.documents, g.encoded, g.documents.len()),
    );
    lemma_ordered_exists(lists.dom());
    lemma_id_entries(lists, lists.dom().len(), entry);
    if id_entries(lists, lists.dom().len()).contains(entry) {
        let (k, b) = choose|k: int, b: nat|
            0 <= k < lists.dom().len() && b < block_count(
                lists[names[k]].len(),
                POSTINGS_PER_BLOCK as nat,
            ) && entry == #[trigger] id_entry(names[k], lists[names[k]], b);
        assert(names.to_set().contains(names[k]));
        assert(entry == id_entry(names[k], g.attribute_lists()[names[k]], b));
    }
    if is_id_entry(g, entry) {
        let (list, b) = choose|list: Seq<char>, b: nat|
            lists.contains_key(list) && b < block_count(
                lists[list].len(),
                POSTINGS_PER_BLOCK as nat,
            ) && entry == #[trigger] id_entry(list, lists[list], b);
        assert(names.to_set().contains(list));
        let k = choose|k: int| 0 <= k < names.len() && names[k] == list;
        assert(entry == id_entry(names[k], lists[names[k]], b));
    }
}

proof fn lemma_posting_part(g: Generation, entry: EntryView)
    ensures
        posting_entries(g.text_lists(), g.text_lists().dom().len()).contains(entry)
            <==> is_posting_entry(g, entry),
{
    let lists = g.text_lists();
    let names = ordered(lists.dom());
    lemma_grouped_finite(
        documents_text_pairs(g.prefix, g.documents, g.fields(), g.documents.len()),
    );
    lemma_ordered_exists(lists.dom());
    lemma_posting_entries(lists, lists.dom().len(), entry);
    if posting_entries(lists, lists.dom().len()).contains(entry) {
        let (k, b) = choose|k: int, b: nat|
            0 <= k < lists.dom().len() && b < block_count(
                lists[names[k]].len(),
                POSTINGS_PER_BLOCK as nat,
            ) && entry == #[trigger] posting_entry(names[k], lists[names[k]], b);
        assert(names.to_set().contains(names[k]));
        assert(entry == posting_entry(names[k], g.text_lists()[names[k]], b));
    }
    if is_posting_entry(g, entry) {
        let (list, b) = choose|list: Seq<char>, b: nat|
            lists.contains_key(list) && b < block_count(
                lists[list].len(),
                POSTINGS_PER_BLOCK as nat,
            ) && entry == #[trigger] posting_entry(list, lists[list], b);
        assert(names.to_set().contains(list));
        let k = choose|k: int| 0 <= k < names.len() && names[k] == list;
        assert(entry == posting_entry(names[k], lists[names[k]], b));
    }
}

/// The entries of a generation are exactly its vector blocks, the terms of its
/// documents, and the blocks of its lists.
pub proof fn lemma_entry_forms(g: Generation, entry: EntryView)
    ensures
        g.entries().contains(entry) <==> is_vector_entry(g, entry) || is_length_entry(g, entry)
            || is_id_entry(g, entry) || is_posting_entry(g, entry),
{
    let n = g.documents.len();
    let vectors = clusters_entries(
        g.prefix,
        g.rows(),
        g.training.assignment@,
        g.rows_per_block(),
        g.clusters(),
    );
    let lengths = lengths_entries(g.prefix, g.documents, g.fields(), n);
    let ids = id_entries(g.attribute_lists(), g.attribute_lists().dom().len());
    let postings = posting_entries(g.text_lists(), g.text_lists().dom().len());
    lemma_concat_member(vectors + lengths + ids, postings, entry);
    lemma_concat_member(vectors + lengths, ids, entry);
    lemma_concat_member(vectors, lengths, entry);
    lemma_clusters_entries(
        g.prefix,
        g.rows(),
        g.training.assignment@,
        g.rows_per_block(),
        g.clusters(),
        entry,
    );
    if vectors.contains(entry) {
        let (c, b) = choose|c: nat, b: nat|
            c < g.clusters() && b < block_count(
                cluster_rows(
                    g.rows(),
                    g.training.assignment@,
                    c as int,
                    g.rows().len(),
                ).len(),
                g.rows_per_block(),
            ) && entry == #[trigger] cluster_entry(
                g.prefix,
                c,
                cluster_rows(g.rows(), g.training.assignment@, c as int, g.rows().len()),
                g.rows_per_block(),
                b,
            );
        assert(entry == cluster_entry(
            g.prefix,
            c,
            g.cluster(c as int),
            g.rows_per_block(),
            b,
        ));
    }
    if is_vector_entry(g, entry) {
        let (c, b) = choose|c: nat, b: nat|
            c < g.clusters() && b < block_count(
                g.cluster(c as int).len(),
                g.rows_per_block(),
            ) && entry == #[trigger] cluster_entry(
                g.prefix,
                c,
                g.cluster(c as int),
                g.rows_per_block(),
                b,
            );
        assert(entry == cluster_entry(
            g.prefix,
            c,
            cluster_rows(g.rows(), g.training.assignment@, c as int, g.rows().len()),
            g.rows_per_block(),
            b,
        ));
    }
    lemma_lengths_entries(g.prefix, g.documents, g.fields(), n, entry);
    lemma_id_part(g, entry);
    lemma_posting_part(g, entry);
}

proof fn lemma_prefixed(prefix: Seq<char>, kind: char, rest: Seq<char>)
    ensures
        of_kind(prefix, prefix + seq![kind, '/'] + rest, kind, kind),
{
    let key = prefix + seq![kind, '/'] + rest;
    assert(key.take(prefix.len() as int) =~= prefix);
}

/// The kind of an entry stands right after the prefix of its key.
pub proof fn lemma_entry_kinds(g: Generation, entry: EntryView)
    ensures
        is_vector_entry(g, entry) ==> of_kind(g.prefix, entry.key, 'v', 'v') && entry.value
            is Vectors,
        is_length_entry(g, entry) ==> of_kind(g.prefix, entry.key, 'l', 'l') && entry.value
            is Lengths,
        is_id_entry(g, entry) ==> of_kind(g.prefix, entry.key, 'e', 'r') && entry.value is Ids,
        is_posting_entry(g, entry) ==> of_kind(g.prefix, entry.key, 't', 't') && entry.value
            is Postings,
{
    if is_vector_entry(g, entry) {
        let (c, b) = choose|c: nat, b: nat|
            c < g.clusters() && b < block_count(
                g.cluster(c as int).len(),
                g.rows_per_block(),
            ) && entry == #[trigger] cluster_entry(
                g.prefix,
                c,
                g.cluster(c as int),
                g.rows_per_block(),
                b,
            );
        let rest = padded(c, 4) + seq!['/'] + padded(b, 8);
        assert(entry.key =~= g.prefix + seq!['v', '/'] + rest);
        lemma_prefixed(g.prefix, 'v', rest);
    }
    if is_length_entry(g, entry) {
        let i = choose|i: int|
            0 <= i < g.documents.len() && field_terms(
                g.documents[i].attributes@,
                g.fields(),
            ).dom().len() > 0 && entry == #[trigger] length_entry(
                g.prefix,
                g.documents[i],
                g.fields(),
            );
        lemma_prefixed(g.prefix, 'l', g.documents[i].id@);
    }
    if is_id_entry(g, entry) {
        let (list, b) = choose|list: Seq<char>, b: nat|
            g.attribute_lists().contains_key(list) && b < block_count(
                g.attribute_lists()[list].len(),
                POSTINGS_PER_BLOCK as nat,
            ) && entry == #[trigger] id_entry(list, g.attribute_lists()[list], b);
        lemma_attribute_lists(g.prefix, g.documents, g.encoded, g.documents.len(), list);
        let (field, value, bits) = choose|field: Seq<char>, value: Seq<u8>, bits: u64| #[trigger]
            attribute_list(g.prefix, list, field, value, bits);
        let kind = if list == equality_list(g.prefix, field, value) {
            'e'
        } else {
            'r'
        };
        let rest = entry.key.skip(g.prefix.len() as int + 2);
        assert(entry.key =~= g.prefix + seq![kind, '/'] + rest);
        lemma_prefixed(g.prefix, kind, rest);
    }
    if is_posting_entry(g, entry) {
        let (list, b) = choose|list: Seq<char>, b: nat|
            g.text_lists().contains_key(list) && b < block_count(
                g.text_lists()[list].len(),
                POSTINGS_PER_BLOCK as nat,
            ) && entry == #[trigger] posting_entry(list, g.text_lists()[list], b);
        lemma_term_lists(g.prefix, g.documents, g.fields(), g.documents.len(), list);
        let (field, term) = choose|field: Seq<char>, term: Seq<char>|
            list == #[trigger] term_list(g.prefix, field, term);
        let rest = entry.key.skip(g.prefix.len() as int + 2);
        assert(entry.key =~= g.prefix + seq!['t', '/'] + rest);
        lemma_prefixed(g.prefix, 't', rest);
    }
}

/// The keys of a generation start with its prefix, and no two of its entries
/// share one.
pub proof fn law_generation_keys_distinct(g: Generation)
    requires
        distinct_documents(g.documents),
    ensures
        keys_distinct(g.entries()),
        forall|i: int|
            0 <= i < g.entries().len() ==> g.prefix.is_prefix_of((#[trigger] g.entries()[i]).key),
{
    let n = g.documents.len();
    let vectors = clusters_entries(
        g.prefix,
        g.rows(),
        g.training.assignment@,
        g.rows_per_block(),
        g.clusters(),
    );
    let lengths = lengths_entries(g.prefix, g.documents, g.fields(), n);
    let ids = id_entries(g.attribute_lists(), g.attribute_lists().dom().len());
    let postings = posting_entries(g.text_lists(), g.text_lists().dom().len());
    lemma_clusters_keys(
        g.prefix,
        g.rows(),
        g.training.assignment@,
        g.rows_per_block(),
        g.clusters(),
    );
    lemma_lengths_keys(g.prefix, g.documents, g.fields(), n);
    lemma_grouped_finite(documents_pairs(g.prefix, g.documents, g.encoded, n));
    lemma_grouped_finite(documents_text_pairs(g.prefix, g.documents, g.fields(), n));
    lemma_ordered_exists(g.attribute_lists().dom());
    lemma_ordered_exists(g.text_lists().dom());
    lemma_id_keys(g.attribute_lists(), g.attribute_lists().dom().len());
    lemma_posting_keys(g.text_lists(), g.text_lists().dom().len());
    assert forall|i: int| 0 <= i < vectors.len() implies of_kind(
        g.prefix,
        (#[trigger] vectors[i]).key,
        'v',
        'v',
    ) by {
        lemma_part_kinds(g, vectors, vectors[i], 0);
    }
    assert forall|i: int| 0 <= i < lengths.len() implies of_kind(
        g.prefix,
        (#[trigger] lengths[i]).key,
        'l',
        'l',
    ) by {
        lemma_part_kinds(g, lengths, lengths[i], 1);
    }
    assert forall|i: int| 0 <= i < ids.len() implies of_kind(
        g.prefix,
        (#[trigger] ids[i]).key,
        'e',
        'r',
    ) by {
        lemma_part_kinds(g, ids, ids[i], 2);
    }
    assert forall|i: int| 0 <= i < postings.len() implies of_kind(
        g.prefix,
        (#[trigger] postings[i]).key,
        't',
        't',
    ) by {
        lemma_part_kinds(g, postings, postings[i], 3);
    }
    lemma_kinds_concat(g.prefix, vectors, 'v', 'v', lengths, 'l', 'l');
    let two = vectors + lengths;
    assert forall|i: int, j: int|
        #![trigger two[i], ids[j]]
        0 <= i < two.len() && 0 <= j < ids.len() implies two[i].key != ids[j].key by {
        if i < vectors.len() {
            assert(two[i] == vectors[i]);
        } else {
            assert(two[i] == lengths[i - vectors.len()]);
        }
    }
    lemma_distinct_concat(two, ids);
    let three = two + ids;
    assert forall|i: int, j: int|
        #![trigger three[i], postings[j]]
        0 <= i < three.len() && 0 <= j < postings.len() implies three[i].key != postings[j].key by {
        if i < vectors.len() {
            assert(three[i] == vectors[i]);
        } else if i < two.len() {
            assert(three[i] == lengths[i - vectors.len()]);
        } else {
            assert(three[i] == ids[i - two.len()]);
        }
    }
    lemma_distinct_concat(three, postings);
    assert forall|i: int| 0 <= i < g.entries().len() implies g.prefix.is_prefix_of(
        (#[trigger] g.entries()[i]).key,
    ) by {
        let entry = g.entries()[i];
        assert(g.entries().contains(entry));
        lemma_entry_forms(g, entry);
        lemma_entry_kinds(g, entry);
        assert(entry.key.subrange(0, g.prefix.len() as int) =~= entry.key.take(
            g.prefix.len() as int,
        ));
    }
}

proof fn lemma_kinds_concat(
    prefix: Seq<char>,
    x: Seq<EntryView>,
    a: char,
    b: char,
    y: Seq<EntryView>,
    c: char,
    d: char,
)
    requires
        keys_distinct(x),
        keys_distinct(y),
        a != c && a != d && b != c && b != d,
        forall|i: int| 0 <= i < x.len() ==> of_kind(prefix, (#[trigger] x[i]).key, a, b),
        forall|i: int| 0 <= i < y.len() ==> of_kind(prefix, (#[trigger] y[i]).key, c, d),
    ensures
        keys_distinct(x + y),
{
    lemma_distinct_concat(x, y);
}

/// The kinds of the four parts of a generation, by their number.
proof fn lemma_part_kinds(g: Generation, part: Seq<EntryView>, entry: EntryView, number: int)
    requires
        part.contains(entry),
        part == if number == 0 {
            clusters_entries(
                g.prefix,
                g.rows(),
                g.training.assignment@,
                g.rows_per_block(),
                g.clusters(),
            )
        } else if number == 1 {
            lengths_entries(g.prefix, g.documents, g.fields(), g.documents.len())
        } else if number == 2 {
            id_entries(g.attribute_lists(), g.attribute_lists().dom().len())
        } else {
            posting_entries(g.text_lists(), g.text_lists().dom().len())
        },
    ensures
        number == 0 ==> of_kind(g.prefix, entry.key, 'v', 'v'),
        number == 1 ==> of_kind(g.prefix, entry.key, 'l', 'l'),
        number == 2 ==> of_kind(g.prefix, entry.key, 'e', 'r'),
        number > 2 ==> of_kind(g.prefix, entry.key, 't', 't'),
{
    lemma_entry_kinds(g, entry);
    if number == 0 {
        lemma_clusters_entries(
            g.prefix,
            g.rows(),
            g.training.assignment@,
            g.rows_per_block(),
            g.clusters(),
            entry,
        );
        let (c, b) = choose|c: nat, b: nat|
            c < g.clusters() && b < block_count(
                cluster_rows(
                    g.rows(),
                    g.training.assignment@,
                    c as int,
                    g.rows().len(),
                ).len(),
                g.rows_per_block(),
            ) && entry == #[trigger] cluster_entry(
                g.prefix,
                c,
                cluster_rows(g.rows(), g.training.assignment@, c as int, g.rows().len()),
                g.rows_per_block(),
                b,
            );
        assert(entry == cluster_entry(
            g.prefix,
            c,
            g.cluster(c as int),
            g.rows_per_block(),
            b,
        ));
        assert(is_vector_entry(g, entry));
    } else if number == 1 {
        lemma_lengths_entries(g.prefix, g.documents, g.fields(), g.documents.len(), entry);
    } else if number == 2 {
        lemma_id_part(g, entry);
    } else {
        lemma_posting_part(g, entry);
    }
}

proof fn lemma_stored(entries: Seq<EntryView>, n: nat)
    requires
        n <= entries.len(),
        keys_distinct(entries),
    ensures
        stored(entries, n).dom().finite(),
        forall|i: int|
            0 <= i < n ==> stored(entries, n).contains_key((#[trigger] entries[i]).key) && stored(
                entries,
                n,
            )[entries[i].key] == entries[i].value,
        forall|key: Seq<char>| #[trigger]
            stored(entries, n).contains_key(key) ==> exists|i: int|
                0 <= i < n && (#[trigger] entries[i]).key == key,
    decreases n,
{
    if n > 0 {
        let m = (n - 1) as nat;
        lemma_stored(entries, m);
        let before = stored(entries, m);
        let after = stored(entries, n);
        let last = entries[n - 1];
        assert(after.dom() =~= before.dom().insert(last.key));
        assert forall|i: int| 0 <= i < n implies after.contains_key((#[trigger] entries[i]).key)
            && after[entries[i].key] == entries[i].value by {
            if i < m {
                assert(entries[i].key != entries[n - 1].key);
            }
        }
        assert forall|key: Seq<char>| #[trigger] after.contains_key(key) implies exists|i: int|
            0 <= i < n && (#[trigger] entries[i]).key == key by {
            if key == last.key {
                assert(entries[n - 1].key == key);
            } else {
                assert(before.contains_key(key));
                let i = choose|i: int| 0 <= i < m && (#[trigger] entries[i]).key == key;
                assert(entries[i].key == key);
            }
        }
    }
}

/// The store of a generation holds exactly its entries.
pub proof fn lemma_store(g: Generation, key: Seq<char>, value: EntryValueView)
    requires
        distinct_documents(g.documents),
    ensures
        g.store().dom().finite(),
        (g.store().contains_key(key) && g.store()[key] == value) <==> g.entries().contains(
            EntryView { key, value },
        ),
{
    let entries = g.entries();
    law_generation_keys_distinct(g);
    lemma_stored(entries, entries.len());
    let entry = EntryView { key, value };
    if g.store().contains_key(key) && g.store()[key] == value {
        let i = choose|i: int| 0 <= i < entries.len() && (#[trigger] entries[i]).key == key;
        assert(entries[i] == entry);
    }
    if entries.contains(entry) {
        let i = choose|i: int| 0 <= i < entries.len() && entries[i] == entry;
        assert(entries[i].key == key);
    }
}

} // verus!
