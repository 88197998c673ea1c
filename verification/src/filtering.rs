//! Why the postings of an index select exactly the documents that a filter
//! accepts.
use vstd::prelude::*;
use vstd::utf8::*;

use crate::agreement::{
    collision_free, distinct_documents, lemma_digest_identifies, lemma_field_lists_identify,
};
use crate::double::{
    finite_double, law_number_key_sorts, lemma_hex_digits_shape, lemma_lex_extend, number_key_spec,
    numeric_order, sortable,
};
use crate::binary::Row;
use crate::index::{
    attribute_pairs, cluster_rows, document_row, vector_rows_of, digest_text, document_pairs,
    documents_pairs, equality_list, range_list,
};
use crate::json::{as_double_spec, json_equal, JsonView};
use crate::model::{eq_holds, range_holds, Document, Filter, NumericRange};
use crate::postings::{items_of, lemma_items_of_concat, Pair};
use crate::search::{row_counts, window_high, window_low};
use crate::text::{lemma_encode_concat, lemma_lex_common_prefix, lemma_lex_prefix, lex_lt, text_lt};
use crate::textmap::{lemma_ordered_exists, ordered};

verus! {

// ---------------------------------------------------------------------------
// Ranges
// ---------------------------------------------------------------------------
/// A key whose rest after the field's prefix is `rest` is read.
pub open spec fn in_window(rest: Seq<char>, range: NumericRange) -> bool {
    !text_lt(rest, window_low(range)) && text_lt(rest, window_high(range))
}

proof fn lemma_ascii_one(c: char)
    requires
        '\0' <= c <= '\u{7f}',
    ensures
        encode_utf8(seq![c]) == seq![c as u8],
{
    let s = seq![c];
    assert(is_ascii_chars(s)) by {
        assert forall|i: int| 0 <= i < s.len() implies '\0' <= #[trigger] s[i] <= '\u{7f}' by {}
    }
    is_ascii_chars_encode_utf8(s);
    assert(s[0] == c);
    assert(encode_utf8(s) =~= seq![c as u8]);
}

proof fn lemma_number_key_bytes(bits: u64)
    ensures
        encode_utf8(number_key_spec(bits)).len() == 16,
        number_key_spec(bits).len() == 16,
        forall|i: int| 0 <= i < 16 ==> encode_utf8(number_key_spec(bits))[i] < 126,
{
    lemma_hex_digits_shape(sortable(bits) as nat, 16);
    is_ascii_chars_encode_utf8(number_key_spec(bits));
    let key = number_key_spec(bits);
    assert forall|i: int| 0 <= i < 16 implies encode_utf8(key)[i] < 126 by {
        assert(key[i] as u8 == encode_utf8(key)[i]);
    }
}

/// A range reads the list of a number exactly if it admits the number.
pub proof fn law_range_window(range: NumericRange, bits: u64, block: Seq<char>)
    requires
        range.valid(),
        finite_double(bits),
    ensures
        in_window(number_key_spec(bits) + seq!['/'] + block, range) == range.admits(bits),
{
    let key = number_key_spec(bits);
    let rest = key + seq!['/'] + block;
    let k = encode_utf8(key);
    let r = encode_utf8(rest);
    lemma_number_key_bytes(bits);
    lemma_encode_concat(key + seq!['/'], block);
    lemma_encode_concat(key, seq!['/']);
    lemma_ascii_one('/');
    lemma_ascii_one('~');
    let tail = encode_utf8(block);
    assert(r =~= k + (seq![47u8] + tail));
    assert(k.is_prefix_of(r)) by {
        assert(r.subrange(0, k.len() as int) =~= k);
    }
    // the lower bound
    match range.gte {
        Some(lo) => {
            let l = encode_utf8(number_key_spec(lo));
            lemma_number_key_bytes(lo);
            law_number_key_sorts(bits, lo);
            if k == l {
                lemma_lex_prefix(l, r);
                crate::text::lemma_encode_injective(key, number_key_spec(lo));
            } else {
                assert(l.is_prefix_of(l)) by {
                    assert(l.subrange(0, l.len() as int) =~= l);
                }
                lemma_lex_extend(k, l, r, l);
                crate::text::lemma_encode_injective(key, number_key_spec(lo));
            }
            assert(text_lt(rest, window_low(range)) == (numeric_order(bits) < numeric_order(lo)));
        },
        None => {
            assert(encode_utf8(Seq::<char>::empty()) =~= Seq::<u8>::empty());
            assert(!lex_lt(r, Seq::<u8>::empty()));
        },
    }
    // the upper bound
    match range.lte {
        Some(hi) => {
            let h = encode_utf8(number_key_spec(hi));
            let high = encode_utf8(window_high(range));
            lemma_encode_concat(number_key_spec(hi), seq!['~']);
            assert(high =~= h + seq![126u8]);
            lemma_number_key_bytes(hi);
            law_number_key_sorts(bits, hi);
            crate::text::lemma_encode_injective(key, number_key_spec(hi));
            if k == h {
                lemma_lex_common_prefix(k, seq![47u8] + tail, seq![126u8]);
                assert((seq![47u8] + tail)[0] == 47u8);
                assert(lex_lt(seq![47u8] + tail, seq![126u8]));
            } else {
                assert(h.is_prefix_of(high)) by {
                    assert(high.subrange(0, h.len() as int) =~= h);
                }
                lemma_lex_extend(k, h, r, high);
            }
            assert(text_lt(rest, window_high(range)) == (numeric_order(bits) <= numeric_order(hi)));
        },
        None => {
            let high = encode_utf8(window_high(range));
            assert(high =~= seq![126u8]);
            assert(r[0] == k[0]);
            assert(r[0] < 126);
            assert(lex_lt(r, high));
        },
    }
}

// ---------------------------------------------------------------------------
// Lists
// ---------------------------------------------------------------------------
/// The list of a key, as the documents fill it, holds the ID.
pub open spec fn listed(
    prefix: Seq<char>,
    documents: Seq<Document>,
    encoded: Seq<Vec<Vec<u8>>>,
    key: Seq<char>,
    id: Seq<char>,
) -> bool {
    items_of(documents_pairs(prefix, documents, encoded, documents.len()), key).contains(id)
}

pub open spec fn field_at(document: Document, k: int) -> Seq<char> {
    ordered(document.attributes@.dom())[k]
}

/// Attribute `k` of the document is `field` and has this encoding.
pub open spec fn has_encoding(
    document: Document,
    encoded: Seq<Vec<u8>>,
    k: int,
    field: Seq<char>,
    expected: Seq<u8>,
) -> bool {
    &&& 0 <= k < document.attributes@.dom().len()
    &&& field_at(document, k) == field
    &&& encoded[k]@ == expected
}

/// Attribute `k` of the document is `field` and is a finite number with the same
/// key as `bits`.
pub open spec fn has_number(document: Document, k: int, field: Seq<char>, bits: u64) -> bool {
    &&& 0 <= k < document.attributes@.dom().len()
    &&& field_at(document, k) == field
    &&& as_double_spec(document.attributes@[field]@) is Some
    &&& finite_double(as_double_spec(document.attributes@[field]@)->0)
    &&& number_key_spec(as_double_spec(document.attributes@[field]@)->0) == number_key_spec(bits)
}

/// The field names and encodings that attribute keys digest.
pub open spec fn inputs_covered(
    inputs: Set<Seq<u8>>,
    documents: Seq<Document>,
    encoded: Seq<Vec<Vec<u8>>>,
) -> bool {
    forall|i: int, k: int|
        #![trigger field_at(documents[i], k)]
        0 <= i < documents.len() && 0 <= k < documents[i].attributes@.dom().len()
            ==> inputs.contains(encode_utf8(field_at(documents[i], k))) && inputs.contains(
            encoded[i]@[k]@,
        )
}

proof fn lemma_concat_contains<T>(a: Seq<Pair<T>>, b: Seq<Pair<T>>, key: Seq<char>, item: T)
    ensures
        items_of(a + b, key).contains(item) == (items_of(a, key).contains(item) || items_of(
            b,
            key,
        ).contains(item)),
{
    lemma_items_of_concat(a, b, key);
    let x = items_of(a, key);
    let y = items_of(b, key);
    let z = x + y;
    if z.contains(item) {
        let i = choose|i: int| 0 <= i < z.len() && z[i] == item;
        if i < x.len() {
            assert(x[i] == item);
        } else {
            assert(y[i - x.len()] == item);
        }
    }
    if x.contains(item) {
        let i = choose|i: int| 0 <= i < x.len() && x[i] == item;
        assert(z[i] == item);
    }
    if y.contains(item) {
        let i = choose|i: int| 0 <= i < y.len() && y[i] == item;
        assert(z[x.len() + i] == item);
    }
}

proof fn lemma_attribute_items(
    prefix: Seq<char>,
    field: Seq<char>,
    value: JsonView,
    encoded: Seq<u8>,
    own: Seq<char>,
    key: Seq<char>,
    id: Seq<char>,
)
    ensures
        items_of(attribute_pairs(prefix, field, value, encoded, own), key).contains(id) == (id == own
            && (equality_list(prefix, field, encoded) == key || (as_double_spec(value) is Some
            && finite_double(as_double_spec(value)->0) && range_list(
            prefix,
            field,
            as_double_spec(value)->0,
        ) == key))),
{
    let pairs = attribute_pairs(prefix, field, value, encoded, own);
    crate::postings::lemma_items_of_contains(pairs, key, id);
    assert(pairs[0].key == equality_list(prefix, field, encoded));
    if pairs.len() == 2 {
        assert(pairs[1].key == range_list(prefix, field, as_double_spec(value)->0));
    }
    if id == own && equality_list(prefix, field, encoded) == key {
        assert(pairs[0].key == key && pairs[0].item == id);
    }
}

/// The first `n` attributes of a document put it on the list of an encoded value
/// exactly if one of them has the field and the encoding.
proof fn lemma_document_equality(
    inputs: Set<Seq<u8>>,
    prefix: Seq<char>,
    document: Document,
    encoded: Seq<Vec<u8>>,
    field: Seq<char>,
    expected: Seq<u8>,
    id: Seq<char>,
    n: nat,
)
    requires
        collision_free(inputs),
        n <= document.attributes@.dom().len(),
        forall|k: int|
            0 <= k < n ==> inputs.contains(encode_utf8(#[trigger] field_at(document, k)))
                && inputs.contains(encoded[k]@),
        inputs.contains(encode_utf8(field)),
        inputs.contains(expected),
    ensures
        items_of(
            document_pairs(prefix, document, encoded, n),
            equality_list(prefix, field, expected),
        ).contains(id) <==> id == document.id@ && exists|k: int|
            k < n && #[trigger] has_encoding(document, encoded, k, field, expected),
    decreases n,
{
    let key = equality_list(prefix, field, expected);
    if n > 0 {
        let m = (n - 1) as nat;
        lemma_document_equality(inputs, prefix, document, encoded, field, expected, id, m);
        let own = field_at(document, n - 1);
        let value = document.attributes@[own]@;
        let enc = encoded[n - 1]@;
        let before = document_pairs(prefix, document, encoded, m);
        let mine = attribute_pairs(prefix, own, value, enc, document.id@);
        lemma_concat_contains(before, mine, key, id);
        lemma_attribute_items(prefix, own, value, enc, document.id@, key, id);
        assert(inputs.contains(encode_utf8(field_at(document, n - 1))));
        if equality_list(prefix, own, enc) == key {
            lemma_field_lists_identify(
                inputs,
                prefix,
                'e',
                own,
                digest_text(enc),
                'e',
                field,
                digest_text(expected),
            );
            lemma_digest_identifies(inputs, enc, expected);
            assert(has_encoding(document, encoded, n - 1, field, expected));
        }
        if as_double_spec(value) is Some {
            let bits = as_double_spec(value)->0;
            if range_list(prefix, own, bits) == key {
                lemma_field_lists_identify(
                    inputs,
                    prefix,
                    'r',
                    own,
                    number_key_spec(bits),
                    'e',
                    field,
                    digest_text(expected),
                );
            }
        }
        if exists|k: int| k < n && #[trigger] has_encoding(document, encoded, k, field, expected) {
            let k = choose|k: int|
                k < n && #[trigger] has_encoding(document, encoded, k, field, expected);
            if k == n - 1 {
                assert(equality_list(prefix, own, enc) == key);
            }
        }
    }
}

/// The same for the list of a number.
proof fn lemma_document_range(
    inputs: Set<Seq<u8>>,
    prefix: Seq<char>,
    document: Document,
    encoded: Seq<Vec<u8>>,
    field: Seq<char>,
    bits: u64,
    id: Seq<char>,
    n: nat,
)
    requires
        collision_free(inputs),
        n <= document.attributes@.dom().len(),
        forall|k: int|
            0 <= k < n ==> inputs.contains(encode_utf8(#[trigger] field_at(document, k))),
        inputs.contains(encode_utf8(field)),
    ensures
        items_of(
            document_pairs(prefix, document, encoded, n),
            range_list(prefix, field, bits),
        ).contains(id) <==> id == document.id@ && exists|k: int|
            k < n && #[trigger] has_number(document, k, field, bits),
    decreases n,
{
    let key = range_list(prefix, field, bits);
    if n > 0 {
        let m = (n - 1) as nat;
        lemma_document_range(inputs, prefix, document, encoded, field, bits, id, m);
        let own = field_at(document, n - 1);
        let value = document.attributes@[own]@;
        let enc = encoded[n - 1]@;
        let before = document_pairs(prefix, document, encoded, m);
        let mine = attribute_pairs(prefix, own, value, enc, document.id@);
        lemma_concat_contains(before, mine, key, id);
        lemma_attribute_items(prefix, own, value, enc, document.id@, key, id);
        assert(inputs.contains(encode_utf8(field_at(document, n - 1))));
        if equality_list(prefix, own, enc) == key {
            lemma_field_lists_identify(
                inputs,
                prefix,
                'e',
                own,
                digest_text(enc),
                'r',
                field,
                number_key_spec(bits),
            );
        }
        if as_double_spec(value) is Some {
            let v = as_double_spec(value)->0;
            if range_list(prefix, own, v) == key {
                lemma_field_lists_identify(
                    inputs,
                    prefix,
                    'r',
                    own,
                    number_key_spec(v),
                    'r',
                    field,
                    number_key_spec(bits),
                );
                if finite_double(v) {
                    assert(has_number(document, n - 1, field, bits));
                }
            }
        }
        if exists|k: int| k < n && #[trigger] has_number(document, k, field, bits) {
            let k = choose|k: int| k < n && #[trigger] has_number(document, k, field, bits);
            if k == n - 1 {
                assert(range_list(prefix, own, as_double_spec(value)->0) == key);
            }
        }
    }
}

proof fn lemma_documents_equality(
    inputs: Set<Seq<u8>>,
    prefix: Seq<char>,
    documents: Seq<Document>,
    encoded: Seq<Vec<Vec<u8>>>,
    field: Seq<char>,
    expected: Seq<u8>,
    id: Seq<char>,
    n: nat,
)
    requires
        n <= documents.len(),
        collision_free(inputs),
        inputs_covered(inputs, documents, encoded),
        inputs.contains(encode_utf8(field)),
        inputs.contains(expected),
    ensures
        items_of(
            documents_pairs(prefix, documents, encoded, n),
            equality_list(prefix, field, expected),
        ).contains(id) <==> exists|i: int, k: int|
            0 <= i < n && documents[i].id@ == id && #[trigger] has_encoding(
                documents[i],
                encoded[i]@,
                k,
                field,
                expected,
            ),
    decreases n,
{
    let key = equality_list(prefix, field, expected);
    if n > 0 {
        let m = (n - 1) as nat;
        lemma_documents_equality(inputs, prefix, documents, encoded, field, expected, id, m);
        let d = documents[n - 1];
        let size = d.attributes@.dom().len();
        assert forall|k: int| 0 <= k < size implies inputs.contains(
            encode_utf8(#[trigger] field_at(d, k)),
        ) && inputs.contains(encoded[n - 1]@[k]@) by {
            assert(inputs.contains(encode_utf8(field_at(documents[n - 1], k))));
        }
        lemma_document_equality(
            inputs,
            prefix,
            d,
            encoded[n - 1]@,
            field,
            expected,
            id,
            size,
        );
        lemma_concat_contains(
            documents_pairs(prefix, documents, encoded, m),
            document_pairs(prefix, d, encoded[n - 1]@, size),
            key,
            id,
        );
        if exists|i: int, k: int|
            0 <= i < n && documents[i].id@ == id && #[trigger] has_encoding(
                documents[i],
                encoded[i]@,
                k,
                field,
                expected,
            ) {
            let (i, k) = choose|i: int, k: int|
                0 <= i < n && documents[i].id@ == id && #[trigger] has_encoding(
                    documents[i],
                    encoded[i]@,
                    k,
                    field,
                    expected,
                );
            if i == n - 1 {
                assert(has_encoding(d, encoded[n - 1]@, k, field, expected));
            }
        }
    }
}

proof fn lemma_documents_range(
    inputs: Set<Seq<u8>>,
    prefix: Seq<char>,
    documents: Seq<Document>,
    encoded: Seq<Vec<Vec<u8>>>,
    field: Seq<char>,
    bits: u64,
    id: Seq<char>,
    n: nat,
)
    requires
        n <= documents.len(),
        collision_free(inputs),
        inputs_covered(inputs, documents, encoded),
        inputs.contains(encode_utf8(field)),
    ensures
        items_of(
            documents_pairs(prefix, documents, encoded, n),
            range_list(prefix, field, bits),
        ).contains(id) <==> exists|i: int, k: int|
            0 <= i < n && documents[i].id@ == id && #[trigger] has_number(
                documents[i],
                k,
                field,
                bits,
            ),
    decreases n,
{
    let key = range_list(prefix, field, bits);
    if n > 0 {
        let m = (n - 1) as nat;
        lemma_documents_range(inputs, prefix, documents, encoded, field, bits, id, m);
        let d = documents[n - 1];
        let size = d.attributes@.dom().len();
        assert forall|k: int| 0 <= k < size implies inputs.contains(
            encode_utf8(#[trigger] field_at(d, k)),
        ) by {
            assert(inputs.contains(encode_utf8(field_at(documents[n - 1], k))));
        }
        lemma_document_range(inputs, prefix, d, encoded[n - 1]@, field, bits, id, size);
        lemma_concat_contains(
            documents_pairs(prefix, documents, encoded, m),
            document_pairs(prefix, d, encoded[n - 1]@, size),
            key,
            id,
        );
        if exists|i: int, k: int|
            0 <= i < n && documents[i].id@ == id && #[trigger] has_number(
                documents[i],
                k,
                field,
                bits,
            ) {
            let (i, k) = choose|i: int, k: int|
                0 <= i < n && documents[i].id@ == id && #[trigger] has_number(
                    documents[i],
                    k,
                    field,
                    bits,
                );
            if i == n - 1 {
                assert(has_number(d, k, field, bits));
            }
        }
    }
}

// ---------------------------------------------------------------------------
// Filters
// ---------------------------------------------------------------------------
/// Two values have the same encoding exactly if they are equal JSON values.
pub open spec fn encodings_faithful(
    documents: Seq<Document>,
    encoded: Seq<Vec<Vec<u8>>>,
    value: JsonView,
    expected: Seq<u8>,
    field: Seq<char>,
) -> bool {
    forall|i: int, k: int|
        #![trigger field_at(documents[i], k)]
        0 <= i < documents.len() && 0 <= k < documents[i].attributes@.dom().len() && field_at(
            documents[i],
            k,
        ) == field ==> (encoded[i]@[k]@ == expected <==> json_equal(
            documents[i].attributes@[field]@,
            value,
        ))
}

pub open spec fn attributes_finite(documents: Seq<Document>) -> bool {
    forall|i: int|
        0 <= i < documents.len() ==> (#[trigger] documents[i]).attributes@.dom().finite()
}

proof fn lemma_field_position(document: Document, field: Seq<char>)
    requires
        document.attributes@.dom().finite(),
    ensures
        document.attributes@.contains_key(field) <==> exists|k: int|
            0 <= k < document.attributes@.dom().len() && #[trigger] field_at(document, k) == field,
{
    let dom = document.attributes@.dom();
    lemma_ordered_exists(dom);
    let names = ordered(dom);
    assert(names.to_set().contains(field) == names.contains(field));
    if names.contains(field) {
        let k = choose|k: int| 0 <= k < names.len() && names[k] == field;
        assert(field_at(document, k) == field);
    }
    if exists|k: int| 0 <= k < dom.len() && #[trigger] field_at(document, k) == field {
        let k = choose|k: int| 0 <= k < dom.len() && #[trigger] field_at(document, k) == field;
        assert(names[k] == field);
    }
}

/// The list that is read for an equality predicate holds exactly the documents
/// whose attribute equals the expected value.
pub proof fn law_equality_postings(
    inputs: Set<Seq<u8>>,
    prefix: Seq<char>,
    documents: Seq<Document>,
    encoded: Seq<Vec<Vec<u8>>>,
    field: Seq<char>,
    value: crate::json::Json,
    expected: Seq<u8>,
    id: Seq<char>,
)
    requires
        collision_free(inputs),
        inputs_covered(inputs, documents, encoded),
        inputs.contains(encode_utf8(field)),
        inputs.contains(expected),
        attributes_finite(documents),
        encodings_faithful(documents, encoded, value@, expected, field),
    ensures
        listed(prefix, documents, encoded, equality_list(prefix, field, expected), id)
            <==> exists|i: int|
            0 <= i < documents.len() && (#[trigger] documents[i]).id@ == id && eq_holds(
                documents[i].attributes@,
                field,
                value,
            ),
{
    let n = documents.len();
    lemma_documents_equality(inputs, prefix, documents, encoded, field, expected, id, n);
    if listed(prefix, documents, encoded, equality_list(prefix, field, expected), id) {
        let (i, k) = choose|i: int, k: int|
            0 <= i < n && documents[i].id@ == id && #[trigger] has_encoding(
                documents[i],
                encoded[i]@,
                k,
                field,
                expected,
            );
        assert(documents[i].attributes@.dom().finite());
        lemma_field_position(documents[i], field);
        assert(field_at(documents[i], k) == field);
        assert(documents[i].id@ == id && eq_holds(documents[i].attributes@, field, value));
    }
    if exists|i: int|
        0 <= i < documents.len() && (#[trigger] documents[i]).id@ == id && eq_holds(
            documents[i].attributes@,
            field,
            value,
        ) {
        let i = choose|i: int|
            0 <= i < documents.len() && (#[trigger] documents[i]).id@ == id && eq_holds(
                documents[i].attributes@,
                field,
                value,
            );
        assert(documents[i].attributes@.dom().finite());
        lemma_field_position(documents[i], field);
        let k = choose|k: int|
            0 <= k < documents[i].attributes@.dom().len() && #[trigger] field_at(
                documents[i],
                k,
            ) == field;
        assert(has_encoding(documents[i], encoded[i]@, k, field, expected));
    }
}

/// The lists that are read for a range predicate hold exactly the documents
/// whose attribute is a number within the range.
pub proof fn law_range_postings(
    inputs: Set<Seq<u8>>,
    prefix: Seq<char>,
    documents: Seq<Document>,
    encoded: Seq<Vec<Vec<u8>>>,
    field: Seq<char>,
    range: NumericRange,
    id: Seq<char>,
)
    requires
        collision_free(inputs),
        inputs_covered(inputs, documents, encoded),
        inputs.contains(encode_utf8(field)),
        attributes_finite(documents),
        range.valid(),
        forall|i: int|
            0 <= i < documents.len() && (#[trigger] documents[i]).attributes@.contains_key(field)
                && as_double_spec(documents[i].attributes@[field]@) is Some ==> finite_double(
                as_double_spec(documents[i].attributes@[field]@)->0,
            ),
    ensures
        (exists|bits: u64|
            finite_double(bits) && #[trigger] in_window(
                number_key_spec(bits) + seq!['/'],
                range,
            ) && listed(prefix, documents, encoded, range_list(prefix, field, bits), id))
            <==> exists|i: int|
            0 <= i < documents.len() && (#[trigger] documents[i]).id@ == id && range_holds(
                documents[i].attributes@,
                field,
                range,
            ),
{
    let n = documents.len();
    if exists|bits: u64|
        finite_double(bits) && #[trigger] in_window(number_key_spec(bits) + seq!['/'], range)
            && listed(prefix, documents, encoded, range_list(prefix, field, bits), id) {
        let bits = choose|bits: u64|
            finite_double(bits) && #[trigger] in_window(number_key_spec(bits) + seq!['/'], range)
                && listed(prefix, documents, encoded, range_list(prefix, field, bits), id);
        lemma_documents_range(inputs, prefix, documents, encoded, field, bits, id, n);
        let (i, k) = choose|i: int, k: int|
            0 <= i < n && documents[i].id@ == id && #[trigger] has_number(
                documents[i],
                k,
                field,
                bits,
            );
        assert(documents[i].attributes@.dom().finite());
        lemma_field_position(documents[i], field);
        assert(field_at(documents[i], k) == field);
        let v = as_double_spec(documents[i].attributes@[field]@)->0;
        law_range_window(range, bits, Seq::empty());
        law_range_window(range, v, Seq::empty());
        assert(number_key_spec(bits) + seq!['/'] + Seq::<char>::empty() =~= number_key_spec(bits)
            + seq!['/']);
        assert(range.admits(v));
        assert(documents[i].id@ == id && range_holds(documents[i].attributes@, field, range));
    }
    if exists|i: int|
        0 <= i < documents.len() && (#[trigger] documents[i]).id@ == id && range_holds(
            documents[i].attributes@,
            field,
            range,
        ) {
        let i = choose|i: int|
            0 <= i < documents.len() && (#[trigger] documents[i]).id@ == id && range_holds(
                documents[i].attributes@,
                field,
                range,
            );
        let v = as_double_spec(documents[i].attributes@[field]@)->0;
        assert(documents[i].attributes@.contains_key(field));
        assert(finite_double(v));
        law_range_window(range, v, Seq::empty());
        assert(number_key_spec(v) + seq!['/'] + Seq::<char>::empty() =~= number_key_spec(v)
            + seq!['/']);
        assert(documents[i].attributes@.dom().finite());
        lemma_field_position(documents[i], field);
        let k = choose|k: int|
            0 <= k < documents[i].attributes@.dom().len() && #[trigger] field_at(
                documents[i],
                k,
            ) == field;
        assert(has_number(documents[i], k, field, v));
        lemma_documents_range(inputs, prefix, documents, encoded, field, v, id, n);
        assert(in_window(number_key_spec(v) + seq!['/'], range));
    }
}

/// The ID is on every list that the filter reads. `expected` gives the encodings
/// of the canonical expected values.
pub open spec fn selected_by_postings(
    prefix: Seq<char>,
    documents: Seq<Document>,
    encoded: Seq<Vec<Vec<u8>>>,
    filter: Filter,
    expected: Map<Seq<char>, Seq<u8>>,
    id: Seq<char>,
) -> bool {
    &&& forall|field: Seq<char>| #[trigger]
        filter.eq@.contains_key(field) ==> listed(
            prefix,
            documents,
            encoded,
            equality_list(prefix, field, expected[field]),
            id,
        )
    &&& forall|field: Seq<char>| #[trigger]
        filter.range@.contains_key(field) ==> exists|bits: u64|
            finite_double(bits) && #[trigger] in_window(
                number_key_spec(bits) + seq!['/'],
                filter.range@[field],
            ) && listed(prefix, documents, encoded, range_list(prefix, field, bits), id)
}

pub open spec fn accepted_document(
    documents: Seq<Document>,
    filter: Filter,
    id: Seq<char>,
    i: int,
) -> bool {
    &&& 0 <= i < documents.len()
    &&& documents[i].id@ == id
    &&& filter.accepts(documents[i].attributes@)
}

/// What the postings of an index can rest on: distinct documents, digests that
/// tell the names and encodings apart, and encodings that stand for their values.
pub open spec fn postings_reliable(
    inputs: Set<Seq<u8>>,
    documents: Seq<Document>,
    encoded: Seq<Vec<Vec<u8>>>,
    filter: Filter,
    expected: Map<Seq<char>, Seq<u8>>,
) -> bool {
    &&& distinct_documents(documents)
    &&& collision_free(inputs)
    &&& inputs_covered(inputs, documents, encoded)
    &&& attributes_finite(documents)
    &&& forall|field: Seq<char>| #[trigger]
        filter.eq@.contains_key(field) ==> inputs.contains(encode_utf8(field)) && inputs.contains(
            expected[field],
        ) && encodings_faithful(
            documents,
            encoded,
            filter.eq@[field]@,
            expected[field],
            field,
        )
    &&& forall|field: Seq<char>| #[trigger]
        filter.range@.contains_key(field) ==> inputs.contains(encode_utf8(field))
            && filter.range@[field].valid()
    &&& forall|i: int, field: Seq<char>|
        #![trigger documents[i].attributes@.contains_key(field)]
        0 <= i < documents.len() && documents[i].attributes@.contains_key(field)
            && as_double_spec(documents[i].attributes@[field]@) is Some ==> finite_double(
            as_double_spec(documents[i].attributes@[field]@)->0,
        )
}

/// Intersecting the lists of all predicates selects exactly the documents that
/// the filter accepts.
pub proof fn law_filter_selects(
    inputs: Set<Seq<u8>>,
    prefix: Seq<char>,
    documents: Seq<Document>,
    encoded: Seq<Vec<Vec<u8>>>,
    filter: Filter,
    expected: Map<Seq<char>, Seq<u8>>,
    id: Seq<char>,
)
    requires
        postings_reliable(inputs, documents, encoded, filter, expected),
        !filter.unrestricted(),
    ensures
        selected_by_postings(prefix, documents, encoded, filter, expected, id) <==> exists|i: int|
            #[trigger] accepted_document(documents, filter, id, i),
{
    if selected_by_postings(prefix, documents, encoded, filter, expected, id) {
        // some predicate names a document with the ID; every other names the same
        if exists|f: Seq<char>| filter.eq@.contains_key(f) {
            let f = choose|f: Seq<char>| filter.eq@.contains_key(f);
            lemma_equality_at(inputs, prefix, documents, encoded, filter, expected, f, id);
            let i = choose|i: int|
                0 <= i < documents.len() && (#[trigger] documents[i]).id@ == id && eq_holds(
                    documents[i].attributes@,
                    f,
                    filter.eq@[f],
                );
            lemma_all_predicates(inputs, prefix, documents, encoded, filter, expected, id, i);
            assert(accepted_document(documents, filter, id, i));
        } else {
            assert(filter.eq@.dom() =~= Set::<Seq<char>>::empty());
            assert(exists|f: Seq<char>| filter.range@.contains_key(f)) by {
                if !(exists|f: Seq<char>| filter.range@.contains_key(f)) {
                    assert(filter.range@.dom() =~= Set::<Seq<char>>::empty());
                }
            }
            let f = choose|f: Seq<char>| filter.range@.contains_key(f);
            lemma_range_at(inputs, prefix, documents, encoded, filter, expected, f, id);
            let i = choose|i: int|
                0 <= i < documents.len() && (#[trigger] documents[i]).id@ == id && range_holds(
                    documents[i].attributes@,
                    f,
                    filter.range@[f],
                );
            lemma_all_predicates(inputs, prefix, documents, encoded, filter, expected, id, i);
            assert(accepted_document(documents, filter, id, i));
        }
    }
    if exists|i: int| #[trigger] accepted_document(documents, filter, id, i) {
        let i = choose|i: int| #[trigger] accepted_document(documents, filter, id, i);
        assert forall|field: Seq<char>| #[trigger] filter.eq@.contains_key(field) implies listed(
            prefix,
            documents,
            encoded,
            equality_list(prefix, field, expected[field]),
            id,
        ) by {
            lemma_equality_at(inputs, prefix, documents, encoded, filter, expected, field, id);
            assert(documents[i].id@ == id && eq_holds(
                documents[i].attributes@,
                field,
                filter.eq@[field],
            ));
        }
        assert forall|field: Seq<char>| #[trigger] filter.range@.contains_key(field) implies exists|
            bits: u64,
        |
            finite_double(bits) && #[trigger] in_window(
                number_key_spec(bits) + seq!['/'],
                filter.range@[field],
            ) && listed(prefix, documents, encoded, range_list(prefix, field, bits), id) by {
            lemma_range_at(inputs, prefix, documents, encoded, filter, expected, field, id);
            assert(documents[i].id@ == id && range_holds(
                documents[i].attributes@,
                field,
                filter.range@[field],
            ));
        }
    }
}

proof fn lemma_equality_at(
    inputs: Set<Seq<u8>>,
    prefix: Seq<char>,
    documents: Seq<Document>,
    encoded: Seq<Vec<Vec<u8>>>,
    filter: Filter,
    expected: Map<Seq<char>, Seq<u8>>,
    field: Seq<char>,
    id: Seq<char>,
)
    requires
        postings_reliable(inputs, documents, encoded, filter, expected),
        filter.eq@.contains_key(field),
    ensures
        listed(prefix, documents, encoded, equality_list(prefix, field, expected[field]), id)
            <==> exists|i: int|
            0 <= i < documents.len() && (#[trigger] documents[i]).id@ == id && eq_holds(
                documents[i].attributes@,
                field,
                filter.eq@[field],
            ),
{
    law_equality_postings(
        inputs,
        prefix,
        documents,
        encoded,
        field,
        filter.eq@[field],
        expected[field],
        id,
    );
}

proof fn lemma_range_at(
    inputs: Set<Seq<u8>>,
    prefix: Seq<char>,
    documents: Seq<Document>,
    encoded: Seq<Vec<Vec<u8>>>,
    filter: Filter,
    expected: Map<Seq<char>, Seq<u8>>,
    field: Seq<char>,
    id: Seq<char>,
)
    requires
        postings_reliable(inputs, documents, encoded, filter, expected),
        filter.range@.contains_key(field),
    ensures
        (exists|bits: u64|
            finite_double(bits) && #[trigger] in_window(
                number_key_spec(bits) + seq!['/'],
                filter.range@[field],
            ) && listed(prefix, documents, encoded, range_list(prefix, field, bits), id))
            <==> exists|i: int|
            0 <= i < documents.len() && (#[trigger] documents[i]).id@ == id && range_holds(
                documents[i].attributes@,
                field,
                filter.range@[field],
            ),
{
    assert forall|i: int|
        0 <= i < documents.len() && (#[trigger] documents[i]).attributes@.contains_key(field)
            && as_double_spec(documents[i].attributes@[field]@) is Some implies finite_double(
        as_double_spec(documents[i].attributes@[field]@)->0,
    ) by {}
    law_range_postings(
        inputs,
        prefix,
        documents,
        encoded,
        field,
        filter.range@[field],
        id,
    );
}

proof fn lemma_all_predicates(
    inputs: Set<Seq<u8>>,
    prefix: Seq<char>,
    documents: Seq<Document>,
    encoded: Seq<Vec<Vec<u8>>>,
    filter: Filter,
    expected: Map<Seq<char>, Seq<u8>>,
    id: Seq<char>,
    i: int,
)
    requires
        postings_reliable(inputs, documents, encoded, filter, expected),
        selected_by_postings(prefix, documents, encoded, filter, expected, id),
        0 <= i < documents.len(),
        documents[i].id@ == id,
    ensures
        filter.accepts(documents[i].attributes@),
{
    assert forall|field: Seq<char>| filter.eq@.contains_key(field) implies eq_holds(
        documents[i].attributes@,
        field,
        #[trigger] filter.eq@[field],
    ) by {
        lemma_equality_at(inputs, prefix, documents, encoded, filter, expected, field, id);
        let j = choose|j: int|
            0 <= j < documents.len() && (#[trigger] documents[j]).id@ == id && eq_holds(
                documents[j].attributes@,
                field,
                filter.eq@[field],
            );
        if i < j {
            assert(documents[i].id@ != documents[j].id@);
        }
        if j < i {
            assert(documents[j].id@ != documents[i].id@);
        }
    }
    assert forall|field: Seq<char>| filter.range@.contains_key(field) implies range_holds(
        documents[i].attributes@,
        field,
        #[trigger] filter.range@[field],
    ) by {
        lemma_range_at(inputs, prefix, documents, encoded, filter, expected, field, id);
        let j = choose|j: int|
            0 <= j < documents.len() && (#[trigger] documents[j]).id@ == id && range_holds(
                documents[j].attributes@,
                field,
                filter.range@[field],
            );
        if i < j {
            assert(documents[i].id@ != documents[j].id@);
        }
        if j < i {
            assert(documents[j].id@ != documents[i].id@);
        }
    }
}

// ---------------------------------------------------------------------------
// Candidates
// ---------------------------------------------------------------------------
/// The current state of a document.
pub struct Live {
    pub attributes: Map<Seq<char>, crate::json::Json>,
    pub vector: Option<Seq<u32>>,
}

pub open spec fn live_of(document: Document) -> Live {
    Live {
        attributes: document.attributes@,
        vector: match document.vector {
            Some(v) => Some(v@),
            None => None,
        },
    }
}

/// A document has the vector and passes the filter: what an exact search scores.
pub open spec fn exact_candidate(live: Map<Seq<char>, Live>, filter: Filter, row: Row) -> bool {
    &&& live.contains_key(row.id)
    &&& live[row.id].vector == Some(row.vector)
    &&& filter.accepts(live[row.id].attributes)
}

/// Documents that did not change are as they were when the index was built.
pub open spec fn unchanged(
    live: Map<Seq<char>, Live>,
    documents: Seq<Document>,
    dirty: Set<Seq<char>>,
) -> bool {
    &&& forall|id: Seq<char>|
        !dirty.contains(id) && #[trigger] live.contains_key(id) ==> exists|i: int|
            0 <= i < documents.len() && (#[trigger] documents[i]).id@ == id && live[id]
                == live_of(documents[i])
    &&& forall|i: int|
        0 <= i < documents.len() && !dirty.contains((#[trigger] documents[i]).id@)
            ==> live.contains_key(documents[i].id@) && live[documents[i].id@] == live_of(
            documents[i],
        )
}

/// The IDs that an index lists for a filter; an unrestricted filter lists none.
pub open spec fn selection_exact(
    documents: Seq<Document>,
    filter: Filter,
    selected: Option<Set<Seq<char>>>,
) -> bool {
    &&& selected is None <==> filter.unrestricted()
    &&& selected is Some ==> forall|id: Seq<char>| #[trigger]
        selected->0.contains(id) <==> exists|i: int| #[trigger]
            accepted_document(documents, filter, id, i)
}

/// Some cluster holds the row.
pub open spec fn in_some_cluster(
    rows: Seq<Row>,
    assignment: Seq<usize>,
    clusters: nat,
    row: Row,
) -> bool {
    exists|c: int|
        0 <= c < clusters && #[trigger] cluster_rows(rows, assignment, c, rows.len()).contains(row)
}

pub proof fn lemma_cluster_rows(rows: Seq<Row>, assignment: Seq<usize>, c: int, row: Row, n: nat)
    requires
        n <= rows.len(),
    ensures
        cluster_rows(rows, assignment, c, n).contains(row) <==> exists|i: int|
            0 <= i < n && #[trigger] rows[i] == row && assignment[i] == c,
    decreases n,
{
    if n > 0 {
        let m = (n - 1) as nat;
        lemma_cluster_rows(rows, assignment, c, row, m);
        if assignment[n - 1] == c {
            crate::search::lemma_push_contains(
                cluster_rows(rows, assignment, c, m),
                rows[n - 1],
                row,
            );
        }
    }
}

pub proof fn lemma_vector_rows(documents: Seq<Document>, row: Row, n: nat)
    requires
        n <= documents.len(),
    ensures
        vector_rows_of(documents, n).contains(row) <==> exists|i: int|
            0 <= i < n && (#[trigger] documents[i]).vector is Some && document_row(documents[i])
                == row,
    decreases n,
{
    if n > 0 {
        let m = (n - 1) as nat;
        lemma_vector_rows(documents, row, m);
        if documents[n - 1].vector is Some {
            crate::search::lemma_push_contains(
                vector_rows_of(documents, m),
                document_row(documents[n - 1]),
                row,
            );
        }
    }
}

/// The clusters of a generation hold every vector that was indexed, and nothing
/// else.
pub proof fn law_clusters_complete(
    documents: Seq<Document>,
    assignment: Seq<usize>,
    clusters: nat,
    row: Row,
)
    requires
        ({
            let rows = vector_rows_of(documents, documents.len());
            assignment.len() == rows.len() && forall|i: int|
                0 <= i < rows.len() ==> (#[trigger] assignment[i]) < clusters
        }),
    ensures
        in_some_cluster(vector_rows_of(documents, documents.len()), assignment, clusters, row)
            <==> exists|i: int|
            0 <= i < documents.len() && (#[trigger] documents[i]).vector is Some && document_row(
                documents[i],
            ) == row,
{
    let n = documents.len();
    let rows = vector_rows_of(documents, n);
    lemma_vector_rows(documents, row, n);
    if in_some_cluster(rows, assignment, clusters, row) {
        let c = choose|c: int|
            0 <= c < clusters && #[trigger] cluster_rows(
                rows,
                assignment,
                c,
                rows.len(),
            ).contains(row);
        lemma_cluster_rows(rows, assignment, c, row, rows.len());
        let i = choose|i: int|
            0 <= i < rows.len() && #[trigger] rows[i] == row && assignment[i] == c;
        assert(rows.contains(row));
    }
    if rows.contains(row) {
        let i = choose|i: int| 0 <= i < rows.len() && rows[i] == row;
        let c = assignment[i] as int;
        lemma_cluster_rows(rows, assignment, c, row, rows.len());
        assert(assignment[i] < clusters);
        assert(cluster_rows(rows, assignment, c, rows.len()).contains(row));
    }
}

/// Probing every cluster and looking at the changed documents finds exactly the
/// candidates of an exact search, pending changes included.
pub proof fn law_full_probe_is_exact(
    live: Map<Seq<char>, Live>,
    documents: Seq<Document>,
    dirty: Set<Seq<char>>,
    filter: Filter,
    selected: Option<Set<Seq<char>>>,
    assignment: Seq<usize>,
    clusters: nat,
    row: Row,
)
    requires
        distinct_documents(documents),
        unchanged(live, documents, dirty),
        selection_exact(documents, filter, selected),
        ({
            let rows = vector_rows_of(documents, documents.len());
            assignment.len() == rows.len() && forall|i: int|
                0 <= i < rows.len() ==> (#[trigger] assignment[i]) < clusters
        }),
    ensures
        exact_candidate(live, filter, row) <==> {
            ||| in_some_cluster(
                vector_rows_of(documents, documents.len()),
                assignment,
                clusters,
                row,
            ) && row_counts(dirty, selected, row)
            ||| dirty.contains(row.id) && exact_candidate(live, filter, row)
        },
{
    law_clusters_complete(documents, assignment, clusters, row);
    if exact_candidate(live, filter, row) && !dirty.contains(row.id) {
        let i = choose|i: int|
            0 <= i < documents.len() && (#[trigger] documents[i]).id@ == row.id && live[row.id]
                == live_of(documents[i]);
        assert(documents[i].vector is Some && document_row(documents[i]) == row);
        if selected is Some {
            assert(accepted_document(documents, filter, row.id, i));
            assert(selected->0.contains(row.id));
        }
    }
    if in_some_cluster(vector_rows_of(documents, documents.len()), assignment, clusters, row)
        && row_counts(dirty, selected, row) {
        let i = choose|i: int|
            0 <= i < documents.len() && (#[trigger] documents[i]).vector is Some && document_row(
                documents[i],
            ) == row;
        assert(!dirty.contains(documents[i].id@));
        assert(live[row.id] == live_of(documents[i]));
        if selected is Some {
            assert(selected->0.contains(row.id));
            let j = choose|j: int| #[trigger] accepted_document(documents, filter, row.id, j);
            if i < j {
                assert(documents[i].id@ != documents[j].id@);
            }
            if j < i {
                assert(documents[j].id@ != documents[i].id@);
            }
        } else {
            lemma_unrestricted(filter, documents[i].attributes@);
        }
    }
}

proof fn lemma_unrestricted(filter: Filter, attributes: Map<Seq<char>, crate::json::Json>)
    requires
        filter.unrestricted(),
    ensures
        filter.accepts(attributes),
{
    assert forall|field: Seq<char>| filter.eq@.contains_key(field) implies eq_holds(
        attributes,
        field,
        #[trigger] filter.eq@[field],
    ) by {
        assert(filter.eq@.dom().contains(field));
        assert(!Set::<Seq<char>>::empty().contains(field));
    }
    assert forall|field: Seq<char>| filter.range@.contains_key(field) implies range_holds(
        attributes,
        field,
        #[trigger] filter.range@[field],
    ) by {
        assert(filter.range@.dom().contains(field));
        assert(!Set::<Seq<char>>::empty().contains(field));
    }
}

/// Scoring the listed documents that did not change, and looking at the changed
/// ones, finds exactly the candidates of an exact search.
pub proof fn law_filtered_is_exact(
    live: Map<Seq<char>, Live>,
    documents: Seq<Document>,
    dirty: Set<Seq<char>>,
    filter: Filter,
    selected: Set<Seq<char>>,
    row: Row,
)
    requires
        distinct_documents(documents),
        unchanged(live, documents, dirty),
        selection_exact(documents, filter, Some(selected)),
    ensures
        exact_candidate(live, filter, row) <==> {
            ||| selected.contains(row.id) && !dirty.contains(row.id) && live.contains_key(row.id)
                && live[row.id].vector == Some(row.vector)
            ||| dirty.contains(row.id) && exact_candidate(live, filter, row)
        },
{
    let listed_ids = Some(selected);
    assert(listed_ids->0.contains(row.id) <==> exists|i: int| #[trigger]
        accepted_document(documents, filter, row.id, i));
    if exact_candidate(live, filter, row) && !dirty.contains(row.id) {
        let i = choose|i: int|
            0 <= i < documents.len() && (#[trigger] documents[i]).id@ == row.id && live[row.id]
                == live_of(documents[i]);
        assert(accepted_document(documents, filter, row.id, i));
        assert(selected.contains(row.id));
    }
    if selected.contains(row.id) && !dirty.contains(row.id) {
        let j = choose|j: int| #[trigger] accepted_document(documents, filter, row.id, j);
        assert(live[row.id] == live_of(documents[j]));
    }
}

} // verus!
