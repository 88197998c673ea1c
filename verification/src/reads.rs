//! What searches read of a stored generation: the lists of a filter, the postings
//! of a term, and the rows of the clusters.
use vstd::prelude::*;
use vstd::utf8::*;

use crate::agreement::{distinct_documents, lemma_field_lists_identify};
use crate::binary::{decoded, first_dimensions, law_block_round_trip, row_valid, Row};
use crate::config::IndexConfig;
use crate::double::{finite_double, lemma_hex_digits_shape, number_key_spec, sortable};
use crate::filtering::{
    accepted_document, in_some_cluster, in_window, law_clusters_complete, law_filter_selects,
    law_range_window, lemma_cluster_rows, lemma_vector_rows, listed, postings_reliable,
    selected_by_postings, selection_exact,
};
use crate::generation::{
    attribute_list, cluster_entry, id_entry, is_id_entry, is_posting_entry, is_vector_entry,
    law_generation_keys_distinct, lemma_attribute_lists, lemma_concat_member, lemma_entry_forms,
    lemma_entry_kinds, lemma_store, posting_entry, Generation, Store,
};
use crate::index::{
    block_key, buildable, cluster_block_key, cluster_rows, digest_text, document_row,
    documents_pairs, equality_list, field_lists, output_bytes, output_verdict, range_list,
    rows_per_block, status_describes, training_covers, vector_rows_of, EntryValueView, EntryView,
    IndexStatus, POSTINGS_PER_BLOCK,
};
use crate::keys::Op;
use crate::model::{valid_id, Document, Filter, NumericRange, MAX_DIMENSIONS};
use crate::outside::sha256;
use crate::postings::{
    block_count, items_of, joined, law_blocks_join, lemma_block_count, lemma_grouped, list_block,
    PostingView,
};
use crate::search::{
    cluster_keys, common, equality_scan, filter_scans_spec, probed_keys, range_scan, ScanView,
};
use crate::text::{lemma_first_slash, lemma_hex_digits_only, padded, text_lt, views};
use crate::textmap::{lemma_ordered_exists, ordered};

verus! {

// ---------------------------------------------------------------------------
// Scans
// ---------------------------------------------------------------------------
/// A scan reads the key: it is under the prefix, and the rest is within bounds.
pub open spec fn read_by(scan: ScanView, key: Seq<char>) -> bool {
    let n = scan.prefix.len() as int;
    &&& n <= key.len()
    &&& key.take(n) == scan.prefix
    &&& !text_lt(key.skip(n), scan.low)
    &&& scan.high is Some ==> text_lt(key.skip(n), scan.high->0)
}

/// The keys that a scan reads, in ascending order.
pub open spec fn keys_read(store: Store, scan: ScanView) -> Seq<Seq<char>> {
    ordered(store.dom().filter(|key: Seq<char>| read_by(scan, key)))
}

pub proof fn lemma_keys_read(store: Store, scan: ScanView)
    requires
        store.dom().finite(),
    ensures
        forall|key: Seq<char>| #[trigger]
            keys_read(store, scan).contains(key) <==> store.contains_key(key) && read_by(scan, key),
        forall|i: int|
            0 <= i < keys_read(store, scan).len() ==> store.contains_key(
                #[trigger] keys_read(store, scan)[i],
            ),
{
    let f = |key: Seq<char>| read_by(scan, key);
    let within = store.dom().filter(f);
    store.dom().lemma_len_filter(f);
    lemma_ordered_exists(within);
    let keys = keys_read(store, scan);
    assert forall|key: Seq<char>| #[trigger] keys.contains(key) <==> store.contains_key(key)
        && read_by(scan, key) by {
        assert(keys.to_set().contains(key) == keys.contains(key));
        assert(within.contains(key) == (store.dom().contains(key) && read_by(scan, key)));
    }
    assert forall|i: int| 0 <= i < keys.len() implies store.contains_key(#[trigger] keys[i]) by {
        assert(keys.contains(keys[i]));
    }
}

/// The ids of the first `n` keys, one list after the other.
pub open spec fn ids_read(store: Store, keys: Seq<Seq<char>>, n: nat) -> Seq<Seq<char>>
    decreases n,
{
    if n == 0 {
        Seq::empty()
    } else {
        ids_read(store, keys, (n - 1) as nat) + match store[keys[n - 1]] {
            EntryValueView::Ids(list) => list,
            _ => Seq::empty(),
        }
    }
}

/// The ids that a scan reads.
pub open spec fn scan_ids(store: Store, scan: ScanView) -> Seq<Seq<char>> {
    ids_read(store, keys_read(store, scan), keys_read(store, scan).len())
}

/// The list under the key holds the item.
pub open spec fn holds_ids(store: Store, key: Seq<char>, item: Seq<char>) -> bool {
    store.contains_key(key) && (store[key] matches EntryValueView::Ids(list)
        && list.contains(item))
}

proof fn lemma_ids_read(store: Store, keys: Seq<Seq<char>>, n: nat, item: Seq<char>)
    requires
        n <= keys.len(),
        forall|i: int| 0 <= i < keys.len() ==> store.contains_key(#[trigger] keys[i]),
    ensures
        ids_read(store, keys, n).contains(item) <==> exists|i: int|
            0 <= i < n && holds_ids(store, #[trigger] keys[i], item),
    decreases n,
{
    if n > 0 {
        let m = (n - 1) as nat;
        lemma_ids_read(store, keys, m, item);
        let own = match store[keys[n - 1]] {
            EntryValueView::Ids(list) => list,
            _ => Seq::<Seq<char>>::empty(),
        };
        lemma_concat_member(ids_read(store, keys, m), own, item);
        assert(store.contains_key(keys[n - 1]));
    }
}

/// A scan reads an item exactly if a list within the scan holds it.
pub proof fn lemma_scan_ids(store: Store, scan: ScanView, item: Seq<char>)
    requires
        store.dom().finite(),
    ensures
        scan_ids(store, scan).contains(item) <==> exists|key: Seq<char>|
            read_by(scan, key) && #[trigger] holds_ids(store, key, item),
{
    let keys = keys_read(store, scan);
    lemma_keys_read(store, scan);
    lemma_ids_read(store, keys, keys.len(), item);
    if scan_ids(store, scan).contains(item) {
        let i = choose|i: int| 0 <= i < keys.len() && holds_ids(store, #[trigger] keys[i], item);
        assert(keys.contains(keys[i]));
        assert(read_by(scan, keys[i]) && holds_ids(store, keys[i], item));
    }
    if exists|key: Seq<char>| read_by(scan, key) && #[trigger] holds_ids(store, key, item) {
        let key = choose|key: Seq<char>|
            read_by(scan, key) && #[trigger] holds_ids(store, key, item);
        assert(keys.contains(key));
        let i = choose|i: int| 0 <= i < keys.len() && keys[i] == key;
        assert(holds_ids(store, keys[i], item));
    }
}

/// The postings of the first `n` keys, one list after the other.
pub open spec fn postings_read(store: Store, keys: Seq<Seq<char>>, n: nat) -> Seq<PostingView>
    decreases n,
{
    if n == 0 {
        Seq::empty()
    } else {
        postings_read(store, keys, (n - 1) as nat) + match store[keys[n - 1]] {
            EntryValueView::Postings(list) => list,
            _ => Seq::empty(),
        }
    }
}

/// The postings that a scan reads.
pub open spec fn scan_postings(store: Store, scan: ScanView) -> Seq<PostingView> {
    postings_read(store, keys_read(store, scan), keys_read(store, scan).len())
}

/// The list under the key holds the item.
pub open spec fn holds_postings(store: Store, key: Seq<char>, item: PostingView) -> bool {
    store.contains_key(key) && (store[key] matches EntryValueView::Postings(list)
        && list.contains(item))
}

proof fn lemma_postings_read(store: Store, keys: Seq<Seq<char>>, n: nat, item: PostingView)
    requires
        n <= keys.len(),
        forall|i: int| 0 <= i < keys.len() ==> store.contains_key(#[trigger] keys[i]),
    ensures
        postings_read(store, keys, n).contains(item) <==> exists|i: int|
            0 <= i < n && holds_postings(store, #[trigger] keys[i], item),
    decreases n,
{
    if n > 0 {
        let m = (n - 1) as nat;
        lemma_postings_read(store, keys, m, item);
        let own = match store[keys[n - 1]] {
            EntryValueView::Postings(list) => list,
            _ => Seq::<PostingView>::empty(),
        };
        lemma_concat_member(postings_read(store, keys, m), own, item);
        assert(store.contains_key(keys[n - 1]));
    }
}

/// A scan reads an item exactly if a list within the scan holds it.
pub proof fn lemma_scan_postings(store: Store, scan: ScanView, item: PostingView)
    requires
        store.dom().finite(),
    ensures
        scan_postings(store, scan).contains(item) <==> exists|key: Seq<char>|
            read_by(scan, key) && #[trigger] holds_postings(store, key, item),
{
    let keys = keys_read(store, scan);
    lemma_keys_read(store, scan);
    lemma_postings_read(store, keys, keys.len(), item);
    if scan_postings(store, scan).contains(item) {
        let i = choose|i: int| 0 <= i < keys.len() && holds_postings(store, #[trigger] keys[i], item);
        assert(keys.contains(keys[i]));
        assert(read_by(scan, keys[i]) && holds_postings(store, keys[i], item));
    }
    if exists|key: Seq<char>| read_by(scan, key) && #[trigger] holds_postings(store, key, item) {
        let key = choose|key: Seq<char>|
            read_by(scan, key) && #[trigger] holds_postings(store, key, item);
        assert(keys.contains(key));
        let i = choose|i: int| 0 <= i < keys.len() && keys[i] == key;
        assert(holds_postings(store, keys[i], item));
    }
}

// ---------------------------------------------------------------------------
// Blocks
// ---------------------------------------------------------------------------
/// Cutting a list into blocks loses nothing and adds nothing.
pub proof fn lemma_block_members<T>(list: Seq<T>, size: nat, item: T)
    requires
        size > 0,
    ensures
        list.contains(item) <==> exists|b: nat|
            b < block_count(list.len(), size) && #[trigger] list_block(list, size, b).contains(item),
{
    if list.contains(item) {
        let i = choose|i: int| 0 <= i < list.len() && list[i] == item;
        let s = size as int;
        let b = (i / s) as nat;
        let r = i % s;
        vstd::arithmetic::div_mod::lemma_fundamental_div_mod(i, s);
        assert(b * s + r == i) by (nonlinear_arith)
            requires
                i == s * (i / s) + (i % s),
                b == i / s,
                r == i % s,
        ;
        assert(0 <= r < s);
        assert(b * size <= i);
        lemma_block_count(list.len(), size, b);
        let part = list_block(list, size, b);
        assert(part[r] == item);
        assert(list_block(list, size, b).contains(item));
    }
    if exists|b: nat|
        b < block_count(list.len(), size) && #[trigger] list_block(list, size, b).contains(item) {
        let b = choose|b: nat|
            b < block_count(list.len(), size) && #[trigger] list_block(list, size, b).contains(item);
        lemma_block_count(list.len(), size, b);
        let part = list_block(list, size, b);
        let k = choose|k: int| 0 <= k < part.len() && part[k] == item;
        assert(list[b * size + k] == item);
    }
}

/// A stored ID list is a block of an attribute list.
proof fn lemma_holds_ids(g: Generation, key: Seq<char>, id: Seq<char>)
    requires
        distinct_documents(g.documents),
    ensures
        holds_ids(g.store(), key, id) <==> exists|list: Seq<char>, b: nat|
            g.attribute_lists().contains_key(list) && b < block_count(
                g.attribute_lists()[list].len(),
                POSTINGS_PER_BLOCK as nat,
            ) && key == block_key(list, b) && #[trigger] list_block(
                g.attribute_lists()[list],
                POSTINGS_PER_BLOCK as nat,
                b,
            ).contains(id),
{
    let lists = g.attribute_lists();
    if holds_ids(g.store(), key, id) {
        let value = g.store()[key];
        let entry = EntryView { key, value };
        lemma_store(g, key, value);
        lemma_entry_forms(g, entry);
        lemma_entry_kinds(g, entry);
        let (list, b) = choose|list: Seq<char>, b: nat|
            lists.contains_key(list) && b < block_count(
                lists[list].len(),
                POSTINGS_PER_BLOCK as nat,
            ) && entry == #[trigger] id_entry(list, lists[list], b);
        assert(list_block(lists[list], POSTINGS_PER_BLOCK as nat, b).contains(id));
    }
    if exists|list: Seq<char>, b: nat|
        lists.contains_key(list) && b < block_count(
            lists[list].len(),
            POSTINGS_PER_BLOCK as nat,
        ) && key == block_key(list, b) && #[trigger] list_block(
            lists[list],
            POSTINGS_PER_BLOCK as nat,
            b,
        ).contains(id) {
        let (list, b) = choose|list: Seq<char>, b: nat|
            lists.contains_key(list) && b < block_count(
                lists[list].len(),
                POSTINGS_PER_BLOCK as nat,
            ) && key == block_key(list, b) && #[trigger] list_block(
                lists[list],
                POSTINGS_PER_BLOCK as nat,
                b,
            ).contains(id);
        let entry = id_entry(list, lists[list], b);
        assert(is_id_entry(g, entry));
        lemma_entry_forms(g, entry);
        lemma_store(g, entry.key, entry.value);
    }
}

/// A stored posting list is a block of a term list.
pub proof fn lemma_holds_postings(g: Generation, key: Seq<char>, item: PostingView)
    requires
        distinct_documents(g.documents),
    ensures
        holds_postings(g.store(), key, item) <==> exists|list: Seq<char>, b: nat|
            g.text_lists().contains_key(list) && b < block_count(
                g.text_lists()[list].len(),
                POSTINGS_PER_BLOCK as nat,
            ) && key == block_key(list, b) && #[trigger] list_block(
                g.text_lists()[list],
                POSTINGS_PER_BLOCK as nat,
                b,
            ).contains(item),
{
    let lists = g.text_lists();
    if holds_postings(g.store(), key, item) {
        let value = g.store()[key];
        let entry = EntryView { key, value };
        lemma_store(g, key, value);
        lemma_entry_forms(g, entry);
        lemma_entry_kinds(g, entry);
        let (list, b) = choose|list: Seq<char>, b: nat|
            lists.contains_key(list) && b < block_count(
                lists[list].len(),
                POSTINGS_PER_BLOCK as nat,
            ) && entry == #[trigger] posting_entry(list, lists[list], b);
        assert(list_block(lists[list], POSTINGS_PER_BLOCK as nat, b).contains(item));
    }
    if exists|list: Seq<char>, b: nat|
        lists.contains_key(list) && b < block_count(
            lists[list].len(),
            POSTINGS_PER_BLOCK as nat,
        ) && key == block_key(list, b) && #[trigger] list_block(
            lists[list],
            POSTINGS_PER_BLOCK as nat,
            b,
        ).contains(item) {
        let (list, b) = choose|list: Seq<char>, b: nat|
            lists.contains_key(list) && b < block_count(
                lists[list].len(),
                POSTINGS_PER_BLOCK as nat,
            ) && key == block_key(list, b) && #[trigger] list_block(
                lists[list],
                POSTINGS_PER_BLOCK as nat,
                b,
            ).contains(item);
        let entry = posting_entry(list, lists[list], b);
        assert(is_posting_entry(g, entry));
        lemma_entry_forms(g, entry);
        lemma_store(g, entry.key, entry.value);
    }
}

// ---------------------------------------------------------------------------
// Lists
// ---------------------------------------------------------------------------
proof fn lemma_number_key_plain(bits: u64)
    ensures
        forall|i: int|
            0 <= i < number_key_spec(bits).len() ==> #[trigger] number_key_spec(bits)[i] != '/',
{
    lemma_hex_digits_shape(sortable(bits) as nat, 16);
    let key = number_key_spec(bits);
    assert forall|i: int| 0 <= i < key.len() implies #[trigger] key[i] != '/' by {
        assert('0' <= key[i] <= '9' || 'a' <= key[i] <= 'f');
    }
}

/// Field lists with the same continuation are the same.
proof fn lemma_same_head(a: Seq<char>, b: Seq<char>, rest: Seq<char>)
    requires
        a + rest == b + rest,
    ensures
        a == b,
{
    assert(a.len() + rest.len() == (b + rest).len());
    assert(a.len() == b.len());
    assert(a =~= (a + rest).take(a.len() as int));
    assert(b =~= (b + rest).take(a.len() as int));
}

/// A key under a list's own prefix belongs to that list.
pub proof fn lemma_list_of_key(
    prefix: Seq<char>,
    kind: char,
    field: Seq<char>,
    name: Seq<char>,
    k2: char,
    f2: Seq<char>,
    n2: Seq<char>,
    b: nat,
)
    requires
        forall|i: int| 0 <= i < name.len() ==> #[trigger] name[i] != '/',
        forall|i: int| 0 <= i < n2.len() ==> #[trigger] n2[i] != '/',
        ({
            let list = field_lists(prefix, kind, field) + name;
            let key = block_key(field_lists(prefix, k2, f2) + n2, b);
            list.len() + 1 <= key.len() && key.take(list.len() as int + 1) == list + seq!['/']
        }),
    ensures
        k2 == kind,
        field_lists(prefix, k2, f2) + n2 == field_lists(prefix, kind, field) + name,
{
    let list = field_lists(prefix, kind, field) + name;
    let key = block_key(field_lists(prefix, k2, f2) + n2, b);
    let rest = key.skip(list.len() as int + 1);
    assert(key =~= key.take(list.len() as int + 1) + rest);
    assert(key =~= field_lists(prefix, kind, field) + (name + seq!['/'] + rest));
    assert(key =~= field_lists(prefix, k2, f2) + (n2 + seq!['/'] + padded(b, 8)));
    lemma_field_lists_identify(
        Set::empty(),
        prefix,
        kind,
        field,
        name + seq!['/'] + rest,
        k2,
        f2,
        n2 + seq!['/'] + padded(b, 8),
    );
    lemma_first_slash(name, rest, n2, padded(b, 8));
    lemma_same_head(
        field_lists(prefix, kind, field),
        field_lists(prefix, k2, f2),
        name + seq!['/'] + rest,
    );
}

/// Reading the list of a value brings the IDs that the documents put there.
proof fn lemma_equality_read(g: Generation, field: Seq<char>, expected: Seq<u8>, id: Seq<char>)
    requires
        distinct_documents(g.documents),
    ensures
        scan_ids(g.store(), equality_scan(g.prefix, field, expected)).contains(id) <==> listed(
            g.prefix,
            g.documents,
            g.encoded,
            equality_list(g.prefix, field, expected),
            id,
        ),
{
    let scan = equality_scan(g.prefix, field, expected);
    let target = equality_list(g.prefix, field, expected);
    let lists = g.attribute_lists();
    let size = POSTINGS_PER_BLOCK as nat;
    let pairs = documents_pairs(g.prefix, g.documents, g.encoded, g.documents.len());
    lemma_store(g, Seq::empty(), EntryValueView::Ids(Seq::empty()));
    lemma_scan_ids(g.store(), scan, id);
    lemma_grouped(pairs, target);
    lemma_hex_digits_only(sha256(expected));
    if scan_ids(g.store(), scan).contains(id) {
        let key = choose|key: Seq<char>|
            read_by(scan, key) && #[trigger] holds_ids(g.store(), key, id);
        lemma_holds_ids(g, key, id);
        let (list, b) = choose|list: Seq<char>, b: nat|
            lists.contains_key(list) && b < block_count(
                lists[list].len(),
                size,
            ) && key == block_key(list, b) && #[trigger] list_block(lists[list], size, b).contains(
                id,
            );
        lemma_attribute_lists(g.prefix, g.documents, g.encoded, g.documents.len(), list);
        let (f, e, bits) = choose|f: Seq<char>, e: Seq<u8>, bits: u64| #[trigger]
            attribute_list(g.prefix, list, f, e, bits);
        if list == equality_list(g.prefix, f, e) {
            lemma_hex_digits_only(sha256(e));
            lemma_list_of_key(
                g.prefix,
                'e',
                field,
                digest_text(expected),
                'e',
                f,
                digest_text(e),
                b,
            );
        } else {
            lemma_number_key_plain(bits);
            lemma_list_of_key(
                g.prefix,
                'e',
                field,
                digest_text(expected),
                'r',
                f,
                number_key_spec(bits),
                b,
            );
        }
        assert(list == target);
        lemma_block_members(lists[target], size, id);
    }
    if listed(g.prefix, g.documents, g.encoded, target, id) {
        assert(items_of(pairs, target).len() > 0);
        lemma_block_members(lists[target], size, id);
        let b = choose|b: nat|
            b < block_count(lists[target].len(), size) && #[trigger] list_block(
                lists[target],
                size,
                b,
            ).contains(id);
        let key = block_key(target, b);
        lemma_holds_ids(g, key, id);
        let n = scan.prefix.len() as int;
        assert(key.take(n) =~= scan.prefix);
        assert(encode_utf8(Seq::<char>::empty()) =~= Seq::<u8>::empty());
        assert(read_by(scan, key) && holds_ids(g.store(), key, id));
    }
}

/// A key under the range lists of a field belongs to the list of a number, and is
/// read if the range admits the number.
proof fn lemma_range_key(
    g: Generation,
    field: Seq<char>,
    range: NumericRange,
    list: Seq<char>,
    b: nat,
) -> (bits: u64)
    requires
        range.valid(),
        g.attribute_lists().contains_key(list),
        read_by(range_scan(g.prefix, field, range), block_key(list, b)),
    ensures
        finite_double(bits),
        list == range_list(g.prefix, field, bits),
        in_window(number_key_spec(bits) + seq!['/'], range),
{
    let head = field_lists(g.prefix, 'r', field);
    let key = block_key(list, b);
    lemma_attribute_lists(g.prefix, g.documents, g.encoded, g.documents.len(), list);
    let (f, e, bits) = choose|f: Seq<char>, e: Seq<u8>, bits: u64| #[trigger]
        attribute_list(g.prefix, list, f, e, bits);
    let rest = key.skip(head.len() as int);
    assert(key =~= head + rest);
    if list == equality_list(g.prefix, f, e) {
        let tail = digest_text(e) + seq!['/'] + padded(b, 8);
        assert(key =~= field_lists(g.prefix, 'e', f) + tail);
        lemma_field_lists_identify(Set::empty(), g.prefix, 'r', field, rest, 'e', f, tail);
    } else {
        let tail = number_key_spec(bits) + seq!['/'] + padded(b, 8);
        assert(key =~= field_lists(g.prefix, 'r', f) + tail);
        lemma_field_lists_identify(Set::empty(), g.prefix, 'r', field, rest, 'r', f, tail);
        lemma_same_head(head, field_lists(g.prefix, 'r', f), tail);
        lemma_window(range, bits, b);
    }
    bits
}

/// All blocks of a number's list are read, or none.
proof fn lemma_window(range: NumericRange, bits: u64, b: nat)
    requires
        range.valid(),
        finite_double(bits),
    ensures
        in_window(number_key_spec(bits) + seq!['/'] + padded(b, 8), range) == in_window(
            number_key_spec(bits) + seq!['/'],
            range,
        ),
{
    law_range_window(range, bits, padded(b, 8));
    law_range_window(range, bits, Seq::empty());
    assert(number_key_spec(bits) + seq!['/'] + Seq::<char>::empty() =~= number_key_spec(bits)
        + seq!['/']);
}

/// Every block of the list of an admitted number is read.
proof fn lemma_range_key_read(
    prefix: Seq<char>,
    field: Seq<char>,
    range: NumericRange,
    bits: u64,
    b: nat,
)
    requires
        range.valid(),
        finite_double(bits),
        in_window(number_key_spec(bits) + seq!['/'], range),
    ensures
        read_by(range_scan(prefix, field, range), block_key(range_list(prefix, field, bits), b)),
{
    let head = field_lists(prefix, 'r', field);
    let key = block_key(range_list(prefix, field, bits), b);
    let n = head.len() as int;
    lemma_window(range, bits, b);
    assert(key.take(n) =~= head);
    assert(key.skip(n) =~= number_key_spec(bits) + seq!['/'] + padded(b, 8));
}

/// A number that the range admits, whose list holds the ID.
pub open spec fn number_listed(
    g: Generation,
    field: Seq<char>,
    range: NumericRange,
    id: Seq<char>,
    bits: u64,
) -> bool {
    finite_double(bits) && in_window(number_key_spec(bits) + seq!['/'], range) && listed(
        g.prefix,
        g.documents,
        g.encoded,
        range_list(g.prefix, field, bits),
        id,
    )
}

/// Reading the lists of a range brings the IDs that the documents put on the
/// lists of its numbers.
proof fn lemma_range_read(g: Generation, field: Seq<char>, range: NumericRange, id: Seq<char>)
    requires
        distinct_documents(g.documents),
        range.valid(),
    ensures
        scan_ids(g.store(), range_scan(g.prefix, field, range)).contains(id) <==> exists|bits: u64|
            #[trigger] number_listed(g, field, range, id, bits),
{
    let scan = range_scan(g.prefix, field, range);
    let lists = g.attribute_lists();
    let size = POSTINGS_PER_BLOCK as nat;
    let pairs = documents_pairs(g.prefix, g.documents, g.encoded, g.documents.len());
    lemma_store(g, Seq::empty(), EntryValueView::Ids(Seq::empty()));
    lemma_scan_ids(g.store(), scan, id);
    if scan_ids(g.store(), scan).contains(id) {
        let key = choose|key: Seq<char>|
            read_by(scan, key) && #[trigger] holds_ids(g.store(), key, id);
        lemma_holds_ids(g, key, id);
        let (list, b) = choose|list: Seq<char>, b: nat|
            lists.contains_key(list) && b < block_count(
                lists[list].len(),
                size,
            ) && key == block_key(list, b) && #[trigger] list_block(lists[list], size, b).contains(
                id,
            );
        let bits = lemma_range_key(g, field, range, list, b);
        lemma_grouped(pairs, list);
        lemma_block_members(lists[list], size, id);
        assert(number_listed(g, field, range, id, bits));
    }
    if exists|bits: u64| #[trigger] number_listed(g, field, range, id, bits) {
        let bits = choose|bits: u64| #[trigger] number_listed(g, field, range, id, bits);
        let list = range_list(g.prefix, field, bits);
        lemma_grouped(pairs, list);
        assert(items_of(pairs, list).len() > 0);
        lemma_block_members(lists[list], size, id);
        let b = choose|b: nat|
            b < block_count(lists[list].len(), size) && #[trigger] list_block(
                lists[list],
                size,
                b,
            ).contains(id);
        let key = block_key(list, b);
        lemma_holds_ids(g, key, id);
        lemma_range_key_read(g.prefix, field, range, bits, b);
        assert(read_by(scan, key) && holds_ids(g.store(), key, id));
    }
}

// ---------------------------------------------------------------------------
// Filters
// ---------------------------------------------------------------------------
/// The encoding of each expected value, by field. `encoded` holds them in field
/// order.
pub open spec fn expected_values(filter: Filter, encoded: Seq<Vec<u8>>) -> Map<
    Seq<char>,
    Seq<u8>,
> {
    let fields = ordered(filter.eq@.dom());
    Map::new(
        |field: Seq<char>| filter.eq@.contains_key(field),
        |field: Seq<char>| encoded[fields.index_of(field)]@,
    )
}

/// The lists are what the scans of a filter read of a generation.
pub open spec fn lists_read(
    g: Generation,
    filter: Filter,
    encoded: Seq<Vec<u8>>,
    lists: Seq<Vec<String>>,
) -> bool {
    let scans = filter_scans_spec(g.prefix, filter, encoded);
    &&& lists.len() == scans.len()
    &&& forall|i: int|
        0 <= i < lists.len() ==> views((#[trigger] lists[i])@) == scan_ids(g.store(), scans[i])
}

proof fn lemma_common(lists: Seq<Vec<String>>, n: nat, id: Seq<char>)
    requires
        n <= lists.len(),
    ensures
        common(lists, n) is None <==> n == 0,
        n > 0 ==> (common(lists, n)->0.contains(id) <==> forall|i: int|
            0 <= i < n ==> views((#[trigger] lists[i])@).contains(id)),
    decreases n,
{
    if n > 0 {
        let m = (n - 1) as nat;
        lemma_common(lists, m, id);
        let own = views(lists[n - 1]@);
        assert(own.to_set().contains(id) == own.contains(id));
        if forall|i: int| 0 <= i < n ==> views((#[trigger] lists[i])@).contains(id) {
            assert(views(lists[n - 1]@).contains(id));
        }
    }
}

/// The reads of a filter, intersected, select exactly the documents that it
/// accepts: nothing is restricted without a predicate, and otherwise the IDs are
/// those on the list of every predicate, which are those of the documents that
/// satisfy them all.
pub proof fn law_filter_reads_select(
    g: Generation,
    inputs: Set<Seq<u8>>,
    filter: Filter,
    encoded: Seq<Vec<u8>>,
    lists: Seq<Vec<String>>,
)
    requires
        filter.eq@.dom().finite(),
        filter.range@.dom().finite(),
        postings_reliable(
            inputs,
            g.documents,
            g.encoded,
            filter,
            expected_values(filter, encoded),
        ),
        lists_read(g, filter, encoded, lists),
    ensures
        common(lists, lists.len()) is None <==> filter.unrestricted(),
        common(lists, lists.len()) is Some ==> forall|id: Seq<char>| #[trigger]
            common(lists, lists.len())->0.contains(id) <==> selected_by_postings(
                g.prefix,
                g.documents,
                g.encoded,
                filter,
                expected_values(filter, encoded),
                id,
            ),
        selection_exact(g.documents, filter, common(lists, lists.len())),
{
    let eqs = ordered(filter.eq@.dom());
    let ranges = ordered(filter.range@.dom());
    let expected = expected_values(filter, encoded);
    let chosen = common(lists, lists.len());
    let scans = filter_scans_spec(g.prefix, filter, encoded);
    lemma_ordered_exists(filter.eq@.dom());
    lemma_ordered_exists(filter.range@.dom());
    lemma_common(lists, lists.len(), Seq::empty());
    if lists.len() == 0 {
        assert(eqs.to_set() =~= Set::<Seq<char>>::empty());
        assert(ranges.to_set() =~= Set::<Seq<char>>::empty());
    } else if filter.unrestricted() {
        assert(filter.eq@.dom().len() == 0);
        assert(filter.range@.dom().len() == 0);
    }
    assert forall|id: Seq<char>| lists.len() > 0 implies (#[trigger] chosen->0.contains(id)
        <==> selected_by_postings(g.prefix, g.documents, g.encoded, filter, expected, id)) by {
        lemma_common(lists, lists.len(), id);
        lemma_selected_reads(g, inputs, filter, encoded, lists, id);
    }
    if chosen is Some {
        assert forall|id: Seq<char>| #[trigger] chosen->0.contains(id) <==> exists|i: int|
            #[trigger] accepted_document(g.documents, filter, id, i) by {
            law_filter_selects(
                inputs,
                g.prefix,
                g.documents,
                g.encoded,
                filter,
                expected,
                id,
            );
        }
    }
}

proof fn lemma_selected_reads(
    g: Generation,
    inputs: Set<Seq<u8>>,
    filter: Filter,
    encoded: Seq<Vec<u8>>,
    lists: Seq<Vec<String>>,
    id: Seq<char>,
)
    requires
        filter.eq@.dom().finite(),
        filter.range@.dom().finite(),
        postings_reliable(
            inputs,
            g.documents,
            g.encoded,
            filter,
            expected_values(filter, encoded),
        ),
        lists_read(g, filter, encoded, lists),
    ensures
        (forall|i: int| 0 <= i < lists.len() ==> views((#[trigger] lists[i])@).contains(id))
            <==> selected_by_postings(
            g.prefix,
            g.documents,
            g.encoded,
            filter,
            expected_values(filter, encoded),
            id,
        ),
{
    let eqs = ordered(filter.eq@.dom());
    let ranges = ordered(filter.range@.dom());
    let expected = expected_values(filter, encoded);
    let scans = filter_scans_spec(g.prefix, filter, encoded);
    lemma_ordered_exists(filter.eq@.dom());
    lemma_ordered_exists(filter.range@.dom());
    crate::textmap::lemma_ascending_distinct(eqs);
    let all = forall|i: int| 0 <= i < lists.len() ==> views((#[trigger] lists[i])@).contains(id);
    let picked = selected_by_postings(g.prefix, g.documents, g.encoded, filter, expected, id);
    if all {
        assert forall|field: Seq<char>| #[trigger] filter.eq@.contains_key(field) implies listed(
            g.prefix,
            g.documents,
            g.encoded,
            equality_list(g.prefix, field, expected[field]),
            id,
        ) by {
            assert(eqs.to_set().contains(field));
            let i = eqs.index_of(field);
            assert(eqs.contains(field));
            assert(views(lists[i]@).contains(id));
            assert(scans[i] == equality_scan(g.prefix, field, encoded[i]@));
            lemma_equality_read(g, field, expected[field], id);
        }
        assert forall|field: Seq<char>| #[trigger] filter.range@.contains_key(field) implies exists|
            bits: u64,
        |
            finite_double(bits) && #[trigger] in_window(
                number_key_spec(bits) + seq!['/'],
                filter.range@[field],
            ) && listed(
                g.prefix,
                g.documents,
                g.encoded,
                range_list(g.prefix, field, bits),
                id,
            ) by {
            assert(ranges.to_set().contains(field));
            let k = choose|k: int| 0 <= k < ranges.len() && ranges[k] == field;
            let i = eqs.len() + k;
            assert(views(lists[i]@).contains(id));
            assert(scans[i] == range_scan(g.prefix, field, filter.range@[field]));
            lemma_range_read(g, field, filter.range@[field], id);
            let bits = choose|bits: u64| #[trigger]
                number_listed(g, field, filter.range@[field], id, bits);
            assert(in_window(number_key_spec(bits) + seq!['/'], filter.range@[field]));
        }
    }
    if picked {
        assert forall|i: int| 0 <= i < lists.len() implies views((#[trigger] lists[i])@).contains(
            id,
        ) by {
            if i < eqs.len() {
                let field = eqs[i];
                assert(eqs.to_set().contains(field));
                assert(filter.eq@.contains_key(field));
                assert(eqs.contains(field));
                assert(eqs.index_of(field) == i);
                lemma_equality_read(g, field, expected[field], id);
            } else {
                let field = ranges[i - eqs.len()];
                assert(ranges.to_set().contains(field));
                assert(filter.range@.contains_key(field));
                let bits = choose|bits: u64|
                    finite_double(bits) && #[trigger] in_window(
                        number_key_spec(bits) + seq!['/'],
                        filter.range@[field],
                    ) && listed(
                        g.prefix,
                        g.documents,
                        g.encoded,
                        range_list(g.prefix, field, bits),
                        id,
                    );
                assert(number_listed(g, field, filter.range@[field], id, bits));
                lemma_range_read(g, field, filter.range@[field], id);
            }
        }
    }
}

/// Every key that a filter reads holds a list of IDs.
pub proof fn law_filter_reads_lists(
    g: Generation,
    filter: Filter,
    encoded: Seq<Vec<u8>>,
    i: int,
    key: Seq<char>,
)
    requires
        distinct_documents(g.documents),
        0 <= i < filter_scans_spec(g.prefix, filter, encoded).len(),
        g.store().contains_key(key),
        read_by(filter_scans_spec(g.prefix, filter, encoded)[i], key),
    ensures
        g.store()[key] is Ids,
{
    let scan = filter_scans_spec(g.prefix, filter, encoded)[i];
    let entry = EntryView { key, value: g.store()[key] };
    lemma_store(g, key, g.store()[key]);
    lemma_entry_forms(g, entry);
    lemma_entry_kinds(g, entry);
    let n = g.prefix.len() as int;
    assert(scan.prefix[n] == 'e' || scan.prefix[n] == 'r');
    assert(key[n] == key.take(scan.prefix.len() as int)[n]);
}

// ---------------------------------------------------------------------------
// Clusters
// ---------------------------------------------------------------------------
/// The documents of a generation are what a namespace with its schema accepts.
pub open spec fn indexable(g: Generation) -> bool {
    &&& g.schema.config_verdict() is Ok
    &&& training_covers(g.training, g.rows())
    &&& distinct_documents(g.documents)
    &&& forall|i: int|
        0 <= i < g.documents.len() ==> valid_id((#[trigger] g.documents[i]).id@) && (
        g.documents[i].vector is Some ==> g.schema.accepts_vector(g.documents[i].vector->0@))
}

/// No two rows have the same ID.
pub open spec fn ids_distinct(rows: Seq<Row>) -> bool {
    forall|i: int, j: int|
        #![trigger rows[i], rows[j]]
        0 <= i < j < rows.len() ==> rows[i].id != rows[j].id
}

pub proof fn lemma_ids_concat(a: Seq<Row>, b: Seq<Row>)
    requires
        ids_distinct(a),
        ids_distinct(b),
        forall|i: int, j: int|
            #![trigger a[i], b[j]]
            0 <= i < a.len() && 0 <= j < b.len() ==> a[i].id != b[j].id,
    ensures
        ids_distinct(a + b),
{
    let c = a + b;
    assert forall|i: int, j: int|
        #![trigger c[i], c[j]]
        0 <= i < j < c.len() implies c[i].id != c[j].id by {
        if j < a.len() {
            assert(c[i] == a[i] && c[j] == a[j]);
        } else if i < a.len() {
            assert(c[i] == a[i] && c[j] == b[j - a.len()]);
        } else {
            assert(c[i] == b[i - a.len()] && c[j] == b[j - a.len()]);
        }
    }
}

proof fn lemma_rows_distinct(documents: Seq<Document>, n: nat)
    requires
        n <= documents.len(),
        distinct_documents(documents),
    ensures
        ids_distinct(vector_rows_of(documents, n)),
    decreases n,
{
    if n > 0 {
        let m = (n - 1) as nat;
        lemma_rows_distinct(documents, m);
        let front = vector_rows_of(documents, m);
        let all = vector_rows_of(documents, n);
        if documents[n - 1].vector is Some {
            assert forall|i: int, j: int|
                #![trigger all[i], all[j]]
                0 <= i < j < all.len() implies all[i].id != all[j].id by {
                assert(all[i] == front[i]);
                if j < front.len() {
                    assert(all[j] == front[j]);
                } else {
                    lemma_vector_rows(documents, front[i], m);
                    assert(front.contains(front[i]));
                    let k = choose|k: int|
                        0 <= k < m && (#[trigger] documents[k]).vector is Some && document_row(
                            documents[k],
                        ) == front[i];
                    assert(documents[k].id@ != documents[n - 1].id@);
                }
            }
        }
    }
}

proof fn lemma_cluster_distinct(rows: Seq<Row>, assignment: Seq<usize>, c: int, n: nat)
    requires
        n <= rows.len(),
        ids_distinct(rows),
    ensures
        ids_distinct(cluster_rows(rows, assignment, c, n)),
    decreases n,
{
    if n > 0 {
        let m = (n - 1) as nat;
        lemma_cluster_distinct(rows, assignment, c, m);
        let front = cluster_rows(rows, assignment, c, m);
        let all = cluster_rows(rows, assignment, c, n);
        if assignment[n - 1] == c {
            assert forall|i: int, j: int|
                #![trigger all[i], all[j]]
                0 <= i < j < all.len() implies all[i].id != all[j].id by {
                assert(all[i] == front[i]);
                if j < front.len() {
                    assert(all[j] == front[j]);
                } else {
                    lemma_cluster_rows(rows, assignment, c, front[i], m);
                    assert(front.contains(front[i]));
                    let k = choose|k: int|
                        0 <= k < m && #[trigger] rows[k] == front[i] && assignment[k] == c;
                    assert(rows[k].id != rows[n - 1].id);
                }
            }
        }
    }
}

/// The rows of the first `n` clusters in probe order.
pub open spec fn probed_rows(g: Generation, order: Seq<usize>, n: nat) -> Seq<Row>
    decreases n,
{
    if n == 0 {
        Seq::empty()
    } else {
        probed_rows(g, order, (n - 1) as nat) + g.cluster(order[n - 1] as int)
    }
}

pub proof fn lemma_probed_member(g: Generation, order: Seq<usize>, n: nat, row: Row)
    requires
        n <= order.len(),
    ensures
        probed_rows(g, order, n).contains(row) <==> exists|i: int|
            0 <= i < n && g.cluster((#[trigger] order[i]) as int).contains(row),
    decreases n,
{
    if n > 0 {
        let m = (n - 1) as nat;
        lemma_probed_member(g, order, m, row);
        lemma_concat_member(probed_rows(g, order, m), g.cluster(order[n - 1] as int), row);
        if g.cluster(order[n - 1] as int).contains(row) {
            assert(g.cluster((order[n - 1]) as int).contains(row));
        }
    }
}

/// Probing different clusters brings every row once.
pub proof fn lemma_probed_distinct(g: Generation, order: Seq<usize>, n: nat)
    requires
        n <= order.len(),
        distinct_documents(g.documents),
        order.no_duplicates(),
    ensures
        ids_distinct(probed_rows(g, order, n)),
    decreases n,
{
    if n > 0 {
        let m = (n - 1) as nat;
        lemma_probed_distinct(g, order, m);
        let rows = g.rows();
        let assignment = g.training.assignment@;
        lemma_rows_distinct(g.documents, g.documents.len());
        let c = order[n - 1];
        lemma_cluster_distinct(rows, assignment, c as int, rows.len());
        let front = probed_rows(g, order, m);
        let own = g.cluster(c as int);
        assert forall|i: int, j: int|
            #![trigger front[i], own[j]]
            0 <= i < front.len() && 0 <= j < own.len() implies front[i].id != own[j].id by {
            assert(front.contains(front[i]) && own.contains(own[j]));
            lemma_probed_member(g, order, m, front[i]);
            let k = choose|k: int| 0 <= k < m && g.cluster((#[trigger] order[k]) as int).contains(
                front[i],
            );
            lemma_cluster_rows(rows, assignment, order[k] as int, front[i], rows.len());
            lemma_cluster_rows(rows, assignment, c as int, own[j], rows.len());
            let x = choose|x: int|
                0 <= x < rows.len() && #[trigger] rows[x] == front[i] && assignment[x]
                    == order[k] as int;
            let y = choose|y: int|
                0 <= y < rows.len() && #[trigger] rows[y] == own[j] && assignment[y] == c as int;
            assert(order[k] != order[n - 1]);
            if x < y {
                assert(rows[x].id != rows[y].id);
            }
            if y < x {
                assert(rows[y].id != rows[x].id);
            }
        }
        lemma_ids_concat(front, own);
    }
}

/// Different numbers below their count are all the numbers below it.
pub proof fn lemma_order_covers(order: Seq<usize>, c: int)
    requires
        order.no_duplicates(),
        forall|i: int| 0 <= i < order.len() ==> (#[trigger] order[i]) < order.len(),
        0 <= c < order.len(),
    ensures
        exists|i: int| 0 <= i < order.len() && (#[trigger] order[i]) as int == c,
{
    let numbers = order.map_values(|x: usize| x as int);
    assert(numbers.no_duplicates()) by {
        assert forall|i: int, j: int|
            0 <= i < numbers.len() && 0 <= j < numbers.len() && i != j implies numbers[i]
            != numbers[j] by {
            assert(order[i] != order[j]);
        }
    }
    numbers.unique_seq_to_set();
    vstd::set_lib::lemma_int_range(0, order.len() as int);
    let range = vstd::set_lib::set_int_range(0, order.len() as int);
    assert(numbers.to_set().subset_of(range)) by {
        assert forall|x: int| numbers.to_set().contains(x) implies range.contains(x) by {
            let i = choose|i: int| 0 <= i < numbers.len() && numbers[i] == x;
            assert(order[i] < order.len());
        }
    }
    vstd::seq_lib::seq_to_set_is_finite(numbers);
    vstd::set_lib::lemma_subset_equality(numbers.to_set(), range);
    assert(range.contains(c));
    assert(numbers.to_set().contains(c));
    let i = choose|i: int| 0 <= i < numbers.len() && numbers[i] == c;
    assert(order[i] as int == c);
}

/// Every row of a cluster can be written to a block and read back.
proof fn lemma_cluster_valid(g: Generation, c: int, i: int)
    requires
        indexable(g),
        0 <= i < g.cluster(c).len(),
    ensures
        g.schema.dimensions is Some,
        1 <= g.schema.dimensions->0 <= MAX_DIMENSIONS,
        row_valid(g.schema.dimensions->0 as nat, g.cluster(c)[i]),
{
    let rows = g.rows();
    let row = g.cluster(c)[i];
    assert(g.cluster(c).contains(row));
    lemma_cluster_rows(rows, g.training.assignment@, c, row, rows.len());
    assert(rows.contains(row));
    lemma_vector_rows(g.documents, row, g.documents.len());
    let k = choose|k: int|
        0 <= k < g.documents.len() && (#[trigger] g.documents[k]).vector is Some && document_row(
            g.documents[k],
        ) == row;
    assert(valid_id(g.documents[k].id@));
}

/// What is stored under the key of a vector block, decoded.
pub open spec fn block_at(store: Store, key: Seq<char>) -> Option<Seq<Row>> {
    if store.contains_key(key) {
        match store[key] {
            EntryValueView::Vectors(bytes) => decoded(bytes),
            _ => None,
        }
    } else {
        None
    }
}

/// The stored blocks of a cluster decode to its rows.
pub proof fn lemma_block_at(g: Generation, c: nat, b: nat)
    requires
        indexable(g),
        c < g.clusters(),
        b < block_count(g.cluster(c as int).len(), g.rows_per_block()),
    ensures
        block_at(g.store(), cluster_block_key(g.prefix, c, b)) == Some(
            list_block(g.cluster(c as int), g.rows_per_block(), b),
        ),
        0 < list_block(g.cluster(c as int), g.rows_per_block(), b).len() <= g.rows_per_block(),
        1 <= g.rows_per_block() <= 128,
{
    let rows = g.cluster(c as int);
    let size = g.rows_per_block();
    let entry = cluster_entry(g.prefix, c, rows, size, b);
    assert(is_vector_entry(g, entry));
    lemma_entry_forms(g, entry);
    lemma_store(g, entry.key, entry.value);
    let part = list_block(rows, size, b);
    lemma_block_count(rows.len(), size, b);
    assert(b * size >= 0) by (nonlinear_arith);
    assert forall|k: int| 0 <= k < part.len() implies row_valid(
        g.schema.dimensions->0 as nat,
        #[trigger] part[k],
    ) by {
        assert(part[k] == rows[b * size + k]);
        lemma_cluster_valid(g, c as int, b * size + k);
    }
    lemma_cluster_valid(g, c as int, (b * size) as int);
    assert(part[0] == rows[(b * size) as int]);
    law_block_round_trip(first_dimensions(part), part);
}

/// The rows of the first `n` blocks that are stored under keys.
pub open spec fn rows_read(store: Store, keys: Seq<Seq<char>>, n: nat) -> Seq<Row>
    decreases n,
{
    if n == 0 {
        Seq::empty()
    } else {
        rows_read(store, keys, (n - 1) as nat) + match block_at(store, keys[n - 1]) {
            Some(rows) => rows,
            None => Seq::empty(),
        }
    }
}

proof fn lemma_rows_read_concat(store: Store, a: Seq<Seq<char>>, b: Seq<Seq<char>>, n: nat)
    requires
        n <= b.len(),
    ensures
        rows_read(store, a + b, a.len() + n) == rows_read(store, a, a.len()) + rows_read(
            store,
            b,
            n,
        ),
    decreases n,
{
    if n == 0 {
        lemma_rows_read_prefix(store, a, a + b, a.len());
        assert(rows_read(store, a, a.len()) + rows_read(store, b, 0) =~= rows_read(
            store,
            a,
            a.len(),
        ));
    } else {
        lemma_rows_read_concat(store, a, b, (n - 1) as nat);
        assert((a + b)[a.len() + n - 1] == b[n - 1]);
        assert(rows_read(store, a + b, a.len() + n) =~= rows_read(store, a, a.len()) + rows_read(
            store,
            b,
            n,
        ));
    }
}

proof fn lemma_rows_read_prefix(store: Store, a: Seq<Seq<char>>, b: Seq<Seq<char>>, n: nat)
    requires
        n <= a.len() <= b.len(),
        forall|i: int| 0 <= i < a.len() ==> a[i] == b[i],
    ensures
        rows_read(store, a, n) == rows_read(store, b, n),
    decreases n,
{
    if n > 0 {
        lemma_rows_read_prefix(store, a, b, (n - 1) as nat);
        assert(a[n - 1] == b[n - 1]);
    }
}

proof fn lemma_cluster_read(g: Generation, c: nat, n: nat)
    requires
        indexable(g),
        c < g.clusters(),
        n <= block_count(g.cluster(c as int).len(), g.rows_per_block()),
    ensures
        forall|m: nat|
            n <= m ==> #[trigger] rows_read(g.store(), cluster_keys(g.prefix, c, m), n) == joined(
                g.cluster(c as int),
                g.rows_per_block(),
                n,
            ),
    decreases n,
{
    if n > 0 {
        let b = (n - 1) as nat;
        lemma_cluster_read(g, c, b);
        lemma_block_at(g, c, b);
        assert forall|m: nat| n <= m implies #[trigger] rows_read(
            g.store(),
            cluster_keys(g.prefix, c, m),
            n,
        ) == joined(g.cluster(c as int), g.rows_per_block(), n) by {
            assert(cluster_keys(g.prefix, c, m)[n - 1] == cluster_block_key(g.prefix, c, b));
            assert(rows_read(g.store(), cluster_keys(g.prefix, c, m), b) == joined(
                g.cluster(c as int),
                g.rows_per_block(),
                b,
            ));
        }
    }
}

/// The number of blocks of each cluster, as the status of a generation has it.
pub open spec fn blocks_counted(g: Generation, blocks: Seq<usize>) -> bool {
    &&& blocks.len() == g.clusters()
    &&& forall|c: int|
        0 <= c < g.clusters() ==> (#[trigger] blocks[c]) == block_count(
            g.cluster(c).len(),
            g.rows_per_block(),
        )
}

/// Reading the blocks of the probed clusters brings their rows, and nothing is
/// missing or damaged.
pub proof fn lemma_probed_read(g: Generation, order: Seq<usize>, blocks: Seq<usize>, n: nat)
    requires
        indexable(g),
        blocks_counted(g, blocks),
        n <= order.len(),
        forall|i: int| 0 <= i < order.len() ==> (#[trigger] order[i]) < g.clusters(),
    ensures
        ({
            let keys = probed_keys(g.prefix, order, blocks, n);
            &&& rows_read(g.store(), keys, keys.len()) == probed_rows(g, order, n)
            &&& forall|i: int|
                0 <= i < keys.len() ==> block_at(g.store(), #[trigger] keys[i]) is Some && block_at(
                    g.store(),
                    keys[i],
                )->0.len() <= 128
        }),
    decreases n,
{
    if n > 0 {
        let m = (n - 1) as nat;
        lemma_probed_read(g, order, blocks, m);
        let c = order[n - 1];
        let count = blocks[c as int] as nat;
        let front = probed_keys(g.prefix, order, blocks, m);
        let own = cluster_keys(g.prefix, c as nat, count);
        let keys = probed_keys(g.prefix, order, blocks, n);
        assert(order[n - 1] < g.clusters());
        lemma_rows_per_block(g.schema.dimensions);
        lemma_cluster_read(g, c as nat, count);
        law_blocks_join(g.cluster(c as int), g.rows_per_block());
        lemma_rows_read_concat(g.store(), front, own, own.len());
        assert(rows_read(g.store(), own, count) == g.cluster(c as int));
        assert forall|i: int| 0 <= i < keys.len() implies block_at(
            g.store(),
            #[trigger] keys[i],
        ) is Some && block_at(g.store(), keys[i])->0.len() <= 128 by {
            if i < front.len() {
                assert(keys[i] == front[i]);
            } else {
                let b = (i - front.len()) as nat;
                assert(keys[i] == cluster_block_key(g.prefix, c as nat, b));
                lemma_block_at(g, c as nat, b);
            }
        }
    }
}

proof fn lemma_rows_per_block(dimensions: Option<usize>)
    ensures
        1 <= rows_per_block(dimensions) <= 128,
{
}

/// The clusters in the order of their numbers.
pub open spec fn all_clusters(n: nat) -> Seq<usize> {
    Seq::new(n, |i: int| i as usize)
}

/// A built generation is whole. It has as many clusters as are configured, or as
/// there are vectors. Its keys are distinct and start with its prefix. Each of
/// its vector blocks decodes to at most 128 rows, and together they hold the
/// vector of every document that has one, once, and nothing else. Encoded within
/// the budget, it takes no more bytes than are allowed.
pub proof fn law_build_is_whole(
    g: Generation,
    status: IndexStatus,
    revision: u64,
    config: IndexConfig,
    ops: Seq<Op>,
)
    requires
        indexable(g),
        buildable(g.schema, g.documents, g.encoded, g.training, config),
        status_describes(status, g.schema, revision, g.documents, g.training),
        output_verdict(ops, config) is Ok,
        ops.len() == g.entries().len(),
        forall|i: int| 0 <= i < ops.len() ==> (#[trigger] ops[i]).key == g.entries()[i].key,
    ensures
        status.vectors == g.rows().len(),
        status.centroids@.len() == status.cluster_blocks@.len(),
        status.centroids@.len() == if config.clusters <= status.vectors {
            config.clusters
        } else {
            status.vectors
        },
        forall|i: int, j: int|
            #![trigger ops[i], ops[j]]
            0 <= i < j < ops.len() ==> ops[i].key != ops[j].key,
        forall|i: int| 0 <= i < ops.len() ==> g.prefix.is_prefix_of((#[trigger] ops[i]).key),
        ({
            let keys = probed_keys(
                g.prefix,
                all_clusters(g.clusters()),
                status.cluster_blocks@,
                g.clusters(),
            );
            let rows = rows_read(g.store(), keys, keys.len());
            &&& forall|i: int|
                0 <= i < keys.len() ==> block_at(g.store(), #[trigger] keys[i]) is Some && block_at(
                    g.store(),
                    keys[i],
                )->0.len() <= 128
            &&& ids_distinct(rows)
            &&& forall|row: Row| #[trigger]
                rows.contains(row) <==> exists|i: int|
                    0 <= i < g.documents.len() && (#[trigger] g.documents[i]).vector is Some
                        && document_row(g.documents[i]) == row
        }),
        output_bytes(ops, ops.len()) <= config.max_build_bytes,
{
    let n = g.clusters();
    let order = all_clusters(n);
    let blocks = status.cluster_blocks@;
    law_generation_keys_distinct(g);
    assert forall|i: int, j: int|
        #![trigger ops[i], ops[j]]
        0 <= i < j < ops.len() implies ops[i].key != ops[j].key by {
        assert(g.entries()[i].key != g.entries()[j].key);
    }
    assert forall|i: int| 0 <= i < ops.len() implies g.prefix.is_prefix_of(
        (#[trigger] ops[i]).key,
    ) by {
        assert(g.prefix.is_prefix_of(g.entries()[i].key));
    }
    assert(n <= config.clusters <= usize::MAX);
    assert forall|c: int| 0 <= c < n implies (#[trigger] blocks[c]) == block_count(
        g.cluster(c).len(),
        g.rows_per_block(),
    ) by {}
    lemma_probed_read(g, order, blocks, n);
    assert(order.no_duplicates());
    lemma_probed_distinct(g, order, n);
    assert forall|row: Row| #[trigger] probed_rows(g, order, n).contains(row) <==> exists|i: int|
        0 <= i < g.documents.len() && (#[trigger] g.documents[i]).vector is Some && document_row(
            g.documents[i],
        ) == row by {
        lemma_probed_member(g, order, n, row);
        law_clusters_complete(g.documents, g.training.assignment@, n, row);
        if in_some_cluster(g.rows(), g.training.assignment@, n, row) {
            let c = choose|c: int|
                0 <= c < n && #[trigger] cluster_rows(
                    g.rows(),
                    g.training.assignment@,
                    c,
                    g.rows().len(),
                ).contains(row);
            assert(g.cluster(order[c] as int).contains(row));
        }
        if probed_rows(g, order, n).contains(row) {
            let i = choose|i: int| 0 <= i < n && g.cluster((#[trigger] order[i]) as int).contains(
                row,
            );
            assert(cluster_rows(
                g.rows(),
                g.training.assignment@,
                order[i] as int,
                g.rows().len(),
            ).contains(row));
        }
    }
}

} // verus!
