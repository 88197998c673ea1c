//! What an index generation says of the documents that it was built from, and
//! why searching it finds what searching the documents finds.
use vstd::prelude::*;
use vstd::utf8::*;

use crate::bm25::{
    by_id, current_rows, documents_with, has_term, lemma_sums_insert, loaded, text_posting,
    tokens_with, Documents, Listed,
};
use crate::index::{
    digest_text, documents_text_pairs, field_documents, field_lists, field_pairs, field_tokens,
    lengths_entries, lengths_key, term_list, text_pairs, EntryValueView,
};
use crate::json::Json;
use crate::model::Document;
use crate::outside::sha256;
use crate::postings::{items_of, lemma_items_of_concat, PostingView};
use crate::terms::{field_terms, field_text, frequencies, terms_of, tokens};
use crate::text::{
    lemma_encode_injective, lemma_first_slash, lemma_hex_digits_only, lemma_hex_injective,
};
use crate::textmap::{ascending, lemma_ascending_distinct, lemma_ordered_exists, ordered};

verus! {

// ---------------------------------------------------------------------------
// Keys identify what they list
// ---------------------------------------------------------------------------
/// The digests of these byte strings tell them apart.
pub open spec fn collision_free(inputs: Set<Seq<u8>>) -> bool {
    forall|a: Seq<u8>, b: Seq<u8>|
        inputs.contains(a) && inputs.contains(b) && #[trigger] sha256(a) == #[trigger] sha256(b)
            ==> a == b
}

pub proof fn lemma_digest_identifies(inputs: Set<Seq<u8>>, a: Seq<u8>, b: Seq<u8>)
    requires
        collision_free(inputs),
        inputs.contains(a),
        inputs.contains(b),
        digest_text(a) == digest_text(b),
    ensures
        a == b,
{
    lemma_hex_injective(sha256(a), sha256(b));
}

/// The kind and the field of a list can be read off its key.
pub proof fn lemma_field_lists_identify(
    inputs: Set<Seq<u8>>,
    prefix: Seq<char>,
    k1: char,
    f1: Seq<char>,
    rest1: Seq<char>,
    k2: char,
    f2: Seq<char>,
    rest2: Seq<char>,
)
    requires
        field_lists(prefix, k1, f1) + rest1 == field_lists(prefix, k2, f2) + rest2,
    ensures
        k1 == k2,
        rest1 == rest2,
        collision_free(inputs) && inputs.contains(encode_utf8(f1)) && inputs.contains(
            encode_utf8(f2),
        ) ==> f1 == f2,
{
    let d1 = digest_text(encode_utf8(f1));
    let d2 = digest_text(encode_utf8(f2));
    let x = field_lists(prefix, k1, f1) + rest1;
    let y = field_lists(prefix, k2, f2) + rest2;
    let n = prefix.len() as int;
    assert(x[n] == k1 && y[n] == k2);
    assert(x.skip(n + 2) =~= d1 + seq!['/'] + rest1);
    assert(y.skip(n + 2) =~= d2 + seq!['/'] + rest2);
    lemma_hex_digits_only(sha256(encode_utf8(f1)));
    lemma_hex_digits_only(sha256(encode_utf8(f2)));
    lemma_first_slash(d1, rest1, d2, rest2);
    if collision_free(inputs) && inputs.contains(encode_utf8(f1)) && inputs.contains(
        encode_utf8(f2),
    ) {
        lemma_digest_identifies(inputs, encode_utf8(f1), encode_utf8(f2));
        lemma_encode_injective(f1, f2);
    }
}

// ---------------------------------------------------------------------------
// Statistics
// ---------------------------------------------------------------------------
pub open spec fn listing(documents: Seq<Document>) -> Seq<Listed> {
    documents.map_values(|d: Document| Listed { id: d.id@, attributes: d.attributes@ })
}

/// The attributes of the documents, by ID.
pub open spec fn attributes_by_id(documents: Seq<Document>, n: nat) -> Documents {
    by_id(listing(documents), n)
}

pub open spec fn distinct_documents(documents: Seq<Document>) -> bool {
    forall|i: int, j: int| 0 <= i < j < documents.len() ==> documents[i].id@ != documents[j].id@
}

pub proof fn lemma_attributes_by_id(documents: Seq<Document>, n: nat)
    requires
        n <= documents.len(),
        distinct_documents(documents),
    ensures
        attributes_by_id(documents, n).dom().finite(),
        forall|id: Seq<char>| #[trigger]
            attributes_by_id(documents, n).contains_key(id) <==> exists|i: int|
                0 <= i < n && (#[trigger] documents[i]).id@ == id,
        forall|i: int|
            0 <= i < n ==> attributes_by_id(documents, n).contains_key(
                (#[trigger] documents[i]).id@,
            ) && attributes_by_id(documents, n)[documents[i].id@] == documents[i].attributes@,
    decreases n,
{
    if n > 0 {
        let m = (n - 1) as nat;
        lemma_attributes_by_id(documents, m);
        let before = attributes_by_id(documents, m);
        let after = attributes_by_id(documents, n);
        let last = documents[n - 1];
        assert(after == before.insert(last.id@, last.attributes@));
        assert(after.dom() =~= before.dom().insert(last.id@));
        assert forall|id: Seq<char>| #[trigger] after.contains_key(id) <==> exists|i: int|
            0 <= i < n && (#[trigger] documents[i]).id@ == id by {
            if after.contains_key(id) && id != last.id@ {
                assert(before.contains_key(id));
            }
            if exists|i: int| 0 <= i < n && (#[trigger] documents[i]).id@ == id {
                let i = choose|i: int| 0 <= i < n && (#[trigger] documents[i]).id@ == id;
                if i < m {
                    assert(before.contains_key(id));
                }
            }
        }
        assert forall|i: int| 0 <= i < n implies after.contains_key((#[trigger] documents[i]).id@)
            && after[documents[i].id@] == documents[i].attributes@ by {
            if i < m {
                assert(documents[i].id@ != documents[n - 1].id@);
            }
        }
    }
}

/// The statistics that a generation stores for a field are those of its
/// documents.
pub proof fn law_index_statistics(documents: Seq<Document>, field: Seq<char>, n: nat)
    requires
        n <= documents.len(),
        distinct_documents(documents),
    ensures
        field_documents(documents, field, n) == documents_with(
            attributes_by_id(documents, n),
            field,
        ),
        field_tokens(documents, field, n) == tokens_with(attributes_by_id(documents, n), field),
    decreases n,
{
    if n > 0 {
        let m = (n - 1) as nat;
        law_index_statistics(documents, field, m);
        lemma_attributes_by_id(documents, m);
        let before = attributes_by_id(documents, m);
        let last = documents[n - 1];
        assert(!before.contains_key(last.id@)) by {
            if before.contains_key(last.id@) {
                let i = choose|i: int| 0 <= i < m && (#[trigger] documents[i]).id@ == last.id@;
                assert(documents[i].id@ != documents[n - 1].id@);
            }
        }
        lemma_sums_insert(before, field, last.id@, last.attributes@);
    } else {
        assert(attributes_by_id(documents, 0).dom() =~= Set::<Seq<char>>::empty());
    }
}

// ---------------------------------------------------------------------------
// Text postings
// ---------------------------------------------------------------------------
/// The field and term names that the text keys of the documents digest.
pub open spec fn text_inputs_covered(
    inputs: Set<Seq<u8>>,
    attributes: Map<Seq<char>, Json>,
    fields: Seq<Seq<char>>,
) -> bool {
    &&& forall|f: Seq<char>| #[trigger]
        fields.contains(f) ==> inputs.contains(encode_utf8(f))
    &&& forall|f: Seq<char>, t: Seq<char>|
        #![trigger has_term(field_text(attributes, f), t)]
        fields.contains(f) && has_term(field_text(attributes, f), t) ==> inputs.contains(
            encode_utf8(t),
        )
}

/// The items that one field of a document contributes to the list of a term.
proof fn lemma_field_items(
    inputs: Set<Seq<u8>>,
    prefix: Seq<char>,
    own: Seq<char>,
    text: Seq<char>,
    id: Seq<char>,
    field: Seq<char>,
    term: Seq<char>,
    n: nat,
)
    requires
        collision_free(inputs),
        inputs.contains(encode_utf8(own)),
        inputs.contains(encode_utf8(field)),
        inputs.contains(encode_utf8(term)),
        forall|t: Seq<char>| #[trigger]
            tokens(text).contains(t) ==> inputs.contains(encode_utf8(t)),
        ascending(ordered(terms_of(text).frequencies.dom())),
        ordered(terms_of(text).frequencies.dom()).to_set() == terms_of(text).frequencies.dom(),
        n <= ordered(terms_of(text).frequencies.dom()).len(),
    ensures
        items_of(field_pairs(prefix, own, terms_of(text), id, n), term_list(prefix, field, term))
            == if own == field && ordered(terms_of(text).frequencies.dom()).take(
            n as int,
        ).contains(term) {
            seq![text_posting(id, text, term)]
        } else {
            Seq::empty()
        },
    decreases n,
{
    let names = ordered(terms_of(text).frequencies.dom());
    let pairs = field_pairs(prefix, own, terms_of(text), id, n);
    if n > 0 {
        let m = (n - 1) as nat;
        lemma_field_items(inputs, prefix, own, text, id, field, term, m);
        let t = names[n - 1];
        assert(names.to_set().contains(t)) by {
            assert(names.contains(names[n - 1]));
        }
        assert(tokens(text).contains(t));
        assert(pairs.drop_last() =~= field_pairs(prefix, own, terms_of(text), id, m));
        let front = names.take(m as int);
        assert(names.take(n as int) =~= front.push(t));
        crate::search::lemma_push_contains(front, t, term);
        lemma_ascending_distinct(names);
        assert(!front.contains(t)) by {
            if front.contains(t) {
                let k = choose|k: int| 0 <= k < front.len() && front[k] == t;
                assert(names[k] == names[n - 1]);
            }
        }
        if term_list(prefix, own, t) == term_list(prefix, field, term) {
            lemma_field_lists_identify(
                inputs,
                prefix,
                't',
                own,
                digest_text(encode_utf8(t)),
                't',
                field,
                digest_text(encode_utf8(term)),
            );
            lemma_digest_identifies(inputs, encode_utf8(t), encode_utf8(term));
            lemma_encode_injective(t, term);
            assert(items_of(pairs, term_list(prefix, field, term)) =~= seq![
                text_posting(id, text, term),
            ]);
        }
    }
}

proof fn lemma_frequencies_ordered(text: Seq<char>)
    ensures
        ascending(ordered(terms_of(text).frequencies.dom())),
        ordered(terms_of(text).frequencies.dom()).to_set() == terms_of(text).frequencies.dom(),
        ordered(terms_of(text).frequencies.dom()).len() == terms_of(text).frequencies.dom().len(),
{
    let dom = terms_of(text).frequencies.dom();
    assert(dom =~= tokens(text).to_set());
    vstd::seq_lib::seq_to_set_is_finite(tokens(text));
    lemma_ordered_exists(dom);
}

proof fn lemma_terms_ordered(attributes: Map<Seq<char>, Json>, fields: Seq<Seq<char>>)
    ensures
        ascending(ordered(field_terms(attributes, fields).dom())),
        ordered(field_terms(attributes, fields).dom()).to_set() == field_terms(
            attributes,
            fields,
        ).dom(),
        ordered(field_terms(attributes, fields).dom()).len() == field_terms(
            attributes,
            fields,
        ).dom().len(),
{
    let dom = field_terms(attributes, fields).dom();
    vstd::seq_lib::seq_to_set_is_finite(fields);
    assert(dom.subset_of(fields.to_set()));
    vstd::set_lib::lemma_set_subset_finite(fields.to_set(), dom);
    lemma_ordered_exists(dom);
}

/// The items that the first `n` text fields of a document contribute to the list
/// of a term.
proof fn lemma_text_items(
    inputs: Set<Seq<u8>>,
    prefix: Seq<char>,
    attributes: Map<Seq<char>, Json>,
    fields: Seq<Seq<char>>,
    id: Seq<char>,
    field: Seq<char>,
    term: Seq<char>,
    n: nat,
)
    requires
        collision_free(inputs),
        text_inputs_covered(inputs, attributes, fields),
        inputs.contains(encode_utf8(field)),
        inputs.contains(encode_utf8(term)),
        n <= ordered(field_terms(attributes, fields).dom()).len(),
    ensures
        items_of(
            text_pairs(prefix, field_terms(attributes, fields), id, n),
            term_list(prefix, field, term),
        ) == if ordered(field_terms(attributes, fields).dom()).take(n as int).contains(field)
            && has_term(field_text(attributes, field), term) {
            seq![text_posting(id, field_text(attributes, field)->0, term)]
        } else {
            Seq::empty()
        },
    decreases n,
{
    let terms = field_terms(attributes, fields);
    let names = ordered(terms.dom());
    let key = term_list(prefix, field, term);
    if n > 0 {
        let m = (n - 1) as nat;
        lemma_text_items(inputs, prefix, attributes, fields, id, field, term, m);
        lemma_terms_ordered(attributes, fields);
        let own = names[n - 1];
        assert(names.to_set().contains(own)) by {
            assert(names.contains(names[n - 1]));
        }
        let text = field_text(attributes, own)->0;
        assert(terms[own] == terms_of(text));
        lemma_frequencies_ordered(text);
        let size = terms[own].frequencies.dom().len();
        let all = ordered(terms[own].frequencies.dom());
        assert forall|t: Seq<char>| #[trigger] tokens(text).contains(t) implies inputs.contains(
            encode_utf8(t),
        ) by {
            assert(has_term(field_text(attributes, own), t));
        }
        lemma_field_items(inputs, prefix, own, text, id, field, term, size);
        assert(all.take(size as int) =~= all);
        assert(all.to_set().contains(term) == all.contains(term));
        let before = text_pairs(prefix, terms, id, m);
        let mine = field_pairs(prefix, own, terms[own], id, size);
        lemma_items_of_concat(before, mine, key);
        let front = names.take(m as int);
        assert(names.take(n as int) =~= front.push(own));
        crate::search::lemma_push_contains(front, own, field);
        lemma_ascending_distinct(names);
        assert(!front.contains(own)) by {
            if front.contains(own) {
                let k = choose|k: int| 0 <= k < front.len() && front[k] == own;
                assert(names[k] == names[n - 1]);
            }
        }
        let posting = text_posting(id, field_text(attributes, field)->0, term);
        if own == field {
            if tokens(text).contains(term) {
                assert(Seq::<PostingView>::empty() + seq![posting] =~= seq![posting]);
            } else {
                assert(Seq::<PostingView>::empty() + Seq::<PostingView>::empty() =~= Seq::<
                    PostingView,
                >::empty());
            }
        } else {
            assert(items_of(before, key) + Seq::<PostingView>::empty() =~= items_of(before, key));
        }
    }
}

/// The documents among the first `n` that have a term, with their postings.
pub open spec fn term_postings(
    documents: Seq<Document>,
    field: Seq<char>,
    term: Seq<char>,
    n: nat,
) -> Seq<PostingView>
    decreases n,
{
    if n == 0 {
        Seq::empty()
    } else {
        let front = term_postings(documents, field, term, (n - 1) as nat);
        let text = field_text(documents[n - 1].attributes@, field);
        if has_term(text, term) {
            front.push(text_posting(documents[n - 1].id@, text->0, term))
        } else {
            front
        }
    }
}

/// The list that a generation stores for a term of a searchable field holds the
/// posting of every document that has the term, in document order, and nothing
/// else.
pub proof fn law_index_postings(
    inputs: Set<Seq<u8>>,
    prefix: Seq<char>,
    documents: Seq<Document>,
    fields: Seq<Seq<char>>,
    field: Seq<char>,
    term: Seq<char>,
    n: nat,
)
    requires
        n <= documents.len(),
        collision_free(inputs),
        forall|i: int|
            0 <= i < documents.len() ==> text_inputs_covered(
                inputs,
                (#[trigger] documents[i]).attributes@,
                fields,
            ),
        fields.contains(field),
        inputs.contains(encode_utf8(field)),
        inputs.contains(encode_utf8(term)),
    ensures
        items_of(
            documents_text_pairs(prefix, documents, fields, n),
            term_list(prefix, field, term),
        ) == term_postings(documents, field, term, n),
    decreases n,
{
    if n > 0 {
        let m = (n - 1) as nat;
        law_index_postings(inputs, prefix, documents, fields, field, term, m);
        let document = documents[n - 1];
        let attributes = document.attributes@;
        let terms = field_terms(attributes, fields);
        let names = ordered(terms.dom());
        let size = terms.dom().len();
        assert(text_inputs_covered(inputs, documents[n - 1].attributes@, fields));
        lemma_terms_ordered(attributes, fields);
        lemma_text_items(inputs, prefix, attributes, fields, document.id@, field, term, size);
        assert(names.take(size as int) =~= names);
        assert(names.to_set().contains(field) == names.contains(field));
        let key = term_list(prefix, field, term);
        let before = documents_text_pairs(prefix, documents, fields, m);
        let mine = text_pairs(prefix, terms, document.id@, size);
        lemma_items_of_concat(before, mine, key);
        assert(items_of(before, key) + items_of(mine, key) =~= term_postings(
            documents,
            field,
            term,
            n,
        ));
    }
}

/// Loading the stored list of a term, without the changed documents, gives the
/// postings of the unchanged documents.
pub proof fn law_loaded_postings(
    documents: Seq<Document>,
    field: Seq<char>,
    term: Seq<char>,
    dirty: Set<Seq<char>>,
    n: nat,
)
    requires
        n <= documents.len(),
        distinct_documents(documents),
    ensures
        loaded(
            Map::empty(),
            term_postings(documents, field, term, n),
            dirty,
            term_postings(documents, field, term, n).len(),
        ) == current_rows(attributes_by_id(documents, n).remove_keys(dirty), field, term),
    decreases n,
{
    let list = term_postings(documents, field, term, n);
    let kept = attributes_by_id(documents, n).remove_keys(dirty);
    let target = current_rows(kept, field, term);
    if n == 0 {
        assert(loaded(Map::empty(), list, dirty, 0) =~= target);
    } else {
        let m = (n - 1) as nat;
        law_loaded_postings(documents, field, term, dirty, m);
        lemma_attributes_by_id(documents, m);
        lemma_attributes_by_id(documents, n);
        let document = documents[n - 1];
        let id = document.id@;
        let text = field_text(document.attributes@, field);
        let front = term_postings(documents, field, term, m);
        let before = attributes_by_id(documents, m).remove_keys(dirty);
        assert(attributes_by_id(documents, n) == attributes_by_id(documents, m).insert(
            id,
            document.attributes@,
        ));
        assert(!attributes_by_id(documents, m).contains_key(id)) by {
            if attributes_by_id(documents, m).contains_key(id) {
                let i = choose|i: int| 0 <= i < m && (#[trigger] documents[i]).id@ == id;
                assert(documents[i].id@ != documents[n - 1].id@);
            }
        }
        if has_term(text, term) {
            lemma_loaded_prefix(front, list, dirty, front.len());
            if dirty.contains(id) {
                assert(kept =~= before);
            } else {
                assert(kept =~= before.insert(id, document.attributes@));
                assert(loaded(Map::empty(), list, dirty, list.len()) =~= target);
            }
        } else {
            if dirty.contains(id) {
                assert(kept =~= before);
            } else {
                assert(kept =~= before.insert(id, document.attributes@));
            }
            assert(target =~= current_rows(before, field, term));
        }
    }
}

proof fn lemma_loaded_prefix(
    a: Seq<PostingView>,
    b: Seq<PostingView>,
    dirty: Set<Seq<char>>,
    n: nat,
)
    requires
        n <= a.len() <= b.len(),
        forall|i: int| 0 <= i < a.len() ==> a[i] == b[i],
    ensures
        loaded(Map::empty(), a, dirty, n) == loaded(Map::empty(), b, dirty, n),
    decreases n,
{
    if n > 0 {
        lemma_loaded_prefix(a, b, dirty, (n - 1) as nat);
        assert(a[n - 1] == b[n - 1]);
    }
}

/// Of each document with searchable text an index keeps exactly its terms, and
/// of others nothing: what a change takes out of the statistics is what the
/// index counted.
pub proof fn law_index_lengths(
    prefix: Seq<char>,
    documents: Seq<Document>,
    fields: Seq<Seq<char>>,
    id: Seq<char>,
    n: nat,
)
    requires
        n <= documents.len(),
        distinct_documents(documents),
    ensures
        ({
            let entries = lengths_entries(prefix, documents, fields, n);
            let built = attributes_by_id(documents, n);
            let key = lengths_key(prefix, id);
            &&& forall|j: int|
                0 <= j < entries.len() && (#[trigger] entries[j]).key == key
                    ==> built.contains_key(id) && entries[j].value == EntryValueView::Lengths(
                    field_terms(built[id], fields),
                )
            &&& built.contains_key(id) && field_terms(built[id], fields).dom().len() > 0
                ==> exists|j: int| 0 <= j < entries.len() && (#[trigger] entries[j]).key == key
        }),
    decreases n,
{
    if n > 0 {
        let m = (n - 1) as nat;
        law_index_lengths(prefix, documents, fields, id, m);
        lemma_attributes_by_id(documents, m);
        let before = attributes_by_id(documents, m);
        let built = attributes_by_id(documents, n);
        let last = documents[n - 1];
        let front = lengths_entries(prefix, documents, fields, m);
        let entries = lengths_entries(prefix, documents, fields, n);
        let key = lengths_key(prefix, id);
        assert(built == before.insert(last.id@, last.attributes@));
        if lengths_key(prefix, last.id@) == key {
            let start = prefix + seq!['l', '/'];
            assert(lengths_key(prefix, last.id@).skip(start.len() as int) =~= last.id@);
            assert(key.skip(start.len() as int) =~= id);
        }
        if id == last.id@ {
            assert(!before.contains_key(id)) by {
                if before.contains_key(id) {
                    let i = choose|i: int| 0 <= i < m && (#[trigger] documents[i]).id@ == id;
                    assert(documents[i].id@ != documents[n - 1].id@);
                }
            }
            if field_terms(last.attributes@, fields).dom().len() > 0 {
                assert(entries[front.len() as int].key == key);
            }
        } else {
            assert forall|j: int|
                0 <= j < entries.len() && (#[trigger] entries[j]).key == key implies built.contains_key(
                id,
            ) && entries[j].value == EntryValueView::Lengths(field_terms(built[id], fields)) by {
                if j < front.len() {
                    assert(front[j] == entries[j]);
                }
            }
            if built.contains_key(id) && field_terms(built[id], fields).dom().len() > 0 {
                let j = choose|j: int| 0 <= j < front.len() && (#[trigger] front[j]).key == key;
                assert(entries[j].key == key);
            }
        }
    }
}

} // verus!
