//! Text searches over an index gather what text searches over the documents do.
use vstd::prelude::*;
use vstd::utf8::*;

use crate::agreement::{
    attributes_by_id, collision_free, distinct_documents, law_index_postings, law_index_statistics,
    law_loaded_postings, lemma_attributes_by_id, term_postings, text_inputs_covered,
};
use crate::bm25::{
    all_matches, built_text, by_id, current, current_eligible, current_postings, current_rows,
    field_corpus, has_term, in_sync, index_base, law_filter_restricts_ranking,
    law_overlay_gathers_current, law_overlay_has_text, law_scan_gathers_current, loaded,
    no_postings, overlaid, scanned, text_hits, text_plan, text_posting, Documents, Gathered,
    Listed, TextScore,
};
use crate::equivalence::{attributes_read, lemma_ordered_members, lemma_same_matches, same_matches};
use crate::filtering::{accepted_document, selection_exact};
use crate::generation::{
    is_length_entry, length_entry, lemma_entry_forms, lemma_entry_kinds, lemma_store,
    lemma_term_lists, Generation, Store,
};
use crate::index::{
    block_key, corpora, digest_text, documents_text_pairs, field_documents, field_tokens,
    lemma_field_bounds, lengths_key, term_list, Corpus, EntryValueView, EntryView,
    POSTINGS_PER_BLOCK,
};
use crate::json::Json;
use crate::model::{Document, Filter, SearchHit};
use crate::outside::sha256;
use crate::postings::{block_count, items_of, lemma_grouped, list_block, PostingView};
use crate::ranking::{top_k, Hit};
use crate::reads::{
    holds_postings, lemma_block_members, lemma_holds_postings, lemma_list_of_key,
    lemma_scan_postings, read_by, scan_postings,
};
use crate::search::{matches_hits, ScanView};
use crate::terms::{field_terms, field_text, texts_bounded, tokens};
use crate::text::lemma_hex_digits_only;
use crate::textmap::{ordered, TextMap};

verus! {

// ---------------------------------------------------------------------------
// A run
// ---------------------------------------------------------------------------
/// The scan that reads the postings of a term.
pub open spec fn term_scan(prefix: Seq<char>, field: Seq<char>, term: Seq<char>) -> ScanView {
    ScanView { prefix: term_list(prefix, field, term) + seq!['/'], low: Seq::empty(), high: None }
}

/// What a text search over an index reads from: the documents as they are, the
/// stored entries and statistics of a generation, the IDs that it lists for the
/// filter, and the IDs that changed after it was built.
pub struct TextLookup {
    pub live: Documents,
    pub field: Seq<char>,
    pub terms: Set<Seq<char>>,
    pub filter: Filter,
    pub store: Store,
    pub prefix: Seq<char>,
    pub text: Map<Seq<char>, Corpus>,
    pub selected: Option<Set<Seq<char>>>,
    pub dirty: Set<Seq<char>>,
}

impl TextLookup {
    /// What a search starts with.
    pub open spec fn started(self) -> Gathered {
        Gathered {
            documents: field_corpus(self.text, self.field).documents as int,
            tokens: field_corpus(self.text, self.field).tokens as int,
            postings: no_postings(self.terms),
            eligible: match self.selected {
                Some(ids) => Some(ids.difference(self.dirty)),
                None => None,
            },
        }
    }

    /// What a search has after the postings of the first `n` terms are loaded.
    pub open spec fn loads(self, n: nat) -> Gathered
        decreases n,
    {
        if n == 0 {
            self.started()
        } else {
            let front = self.loads((n - 1) as nat);
            let term = ordered(self.terms)[n - 1];
            let items = scan_postings(self.store, term_scan(self.prefix, self.field, term));
            Gathered {
                postings: front.postings.insert(
                    term,
                    loaded(front.postings[term], items, self.dirty, items.len()),
                ),
                ..front
            }
        }
    }

    /// The number of tokens that the generation counted for a document.
    pub open spec fn counted(self, id: Seq<char>) -> Option<nat> {
        let key = lengths_key(self.prefix, id);
        if self.store.contains_key(key) {
            match self.store[key] {
                EntryValueView::Lengths(terms) => if terms.contains_key(self.field) {
                    Some(terms[self.field].length)
                } else {
                    None
                },
                _ => None,
            }
        } else {
            None
        }
    }

    /// What a search has after the first `n` changed documents are laid over.
    pub open spec fn overlays(self, n: nat) -> Gathered
        decreases n,
    {
        if n == 0 {
            self.loads(self.terms.len())
        } else {
            let before = self.overlays((n - 1) as nat);
            let id = ordered(self.dirty)[n - 1];
            let front = match self.counted(id) {
                Some(length) => Gathered {
                    documents: before.documents - 1,
                    tokens: before.tokens - length,
                    ..before
                },
                None => before,
            };
            if self.live.contains_key(id) {
                front.with_document(self.field, self.filter, id, self.live[id])
            } else {
                front
            }
        }
    }

    /// What a search has gathered at its end.
    pub open spec fn gathered(self) -> Gathered {
        self.overlays(self.dirty.len())
    }
}

/// The lookup reads a generation: one whose documents are as they were but for
/// the changed ones, whose digests tell the names apart, and whose lists for the
/// filter are exact.
pub open spec fn gathers_from(lookup: TextLookup, g: Generation, inputs: Set<Seq<u8>>) -> bool {
    &&& lookup.live.dom().finite()
    &&& lookup.terms.finite()
    &&& lookup.dirty.finite()
    &&& g.fields().contains(lookup.field)
    &&& distinct_documents(g.documents)
    &&& g.documents.len() <= u32::MAX
    &&& forall|i: int|
        0 <= i < g.documents.len() ==> texts_bounded((#[trigger] g.documents[i]).attributes@)
    &&& collision_free(inputs)
    &&& inputs.contains(encode_utf8(lookup.field))
    &&& forall|term: Seq<char>| #[trigger]
        lookup.terms.contains(term) ==> inputs.contains(encode_utf8(term))
    &&& forall|i: int|
        0 <= i < g.documents.len() ==> text_inputs_covered(
            inputs,
            (#[trigger] g.documents[i]).attributes@,
            g.fields(),
        )
    &&& lookup.store == g.store()
    &&& lookup.prefix == g.prefix
    &&& lookup.text == corpora(g.documents, g.fields(), g.documents.len())
    &&& selection_exact(g.documents, lookup.filter, lookup.selected)
    &&& in_sync(lookup.live, built_documents(g), lookup.dirty)
}

/// The attributes of the documents that a generation was built from, by ID.
pub open spec fn built_documents(g: Generation) -> Documents {
    attributes_by_id(g.documents, g.documents.len())
}

// ---------------------------------------------------------------------------
// Postings
// ---------------------------------------------------------------------------
/// The stored blocks of a term hold its postings, and nothing else.
proof fn lemma_term_read(
    g: Generation,
    inputs: Set<Seq<u8>>,
    field: Seq<char>,
    term: Seq<char>,
    item: PostingView,
)
    requires
        distinct_documents(g.documents),
        collision_free(inputs),
        g.fields().contains(field),
        inputs.contains(encode_utf8(field)),
        inputs.contains(encode_utf8(term)),
        forall|i: int|
            0 <= i < g.documents.len() ==> text_inputs_covered(
                inputs,
                (#[trigger] g.documents[i]).attributes@,
                g.fields(),
            ),
    ensures
        scan_postings(g.store(), term_scan(g.prefix, field, term)).contains(item) <==> term_postings(
            g.documents,
            field,
            term,
            g.documents.len(),
        ).contains(item),
{
    let scan = term_scan(g.prefix, field, term);
    let target = term_list(g.prefix, field, term);
    let lists = g.text_lists();
    let size = POSTINGS_PER_BLOCK as nat;
    let n = g.documents.len();
    let pairs = documents_text_pairs(g.prefix, g.documents, g.fields(), n);
    lemma_store(g, Seq::empty(), EntryValueView::Ids(Seq::empty()));
    lemma_scan_postings(g.store(), scan, item);
    lemma_grouped(pairs, target);
    law_index_postings(inputs, g.prefix, g.documents, g.fields(), field, term, n);
    lemma_hex_digits_only(sha256(encode_utf8(term)));
    if scan_postings(g.store(), scan).contains(item) {
        let key = choose|key: Seq<char>|
            read_by(scan, key) && #[trigger] holds_postings(g.store(), key, item);
        lemma_holds_postings(g, key, item);
        let (list, b) = choose|list: Seq<char>, b: nat|
            lists.contains_key(list) && b < block_count(
                lists[list].len(),
                size,
            ) && key == block_key(list, b) && #[trigger] list_block(lists[list], size, b).contains(
                item,
            );
        lemma_term_lists(g.prefix, g.documents, g.fields(), n, list);
        let (f, t) = choose|f: Seq<char>, t: Seq<char>| list == #[trigger] term_list(
            g.prefix,
            f,
            t,
        );
        lemma_hex_digits_only(sha256(encode_utf8(t)));
        lemma_list_of_key(
            g.prefix,
            't',
            field,
            digest_text(encode_utf8(term)),
            't',
            f,
            digest_text(encode_utf8(t)),
            b,
        );
        assert(list == target);
        lemma_block_members(lists[target], size, item);
    }
    if items_of(pairs, target).contains(item) {
        lemma_block_members(lists[target], size, item);
        let b = choose|b: nat|
            b < block_count(lists[target].len(), size) && #[trigger] list_block(
                lists[target],
                size,
                b,
            ).contains(item);
        let key = block_key(target, b);
        lemma_holds_postings(g, key, item);
        let m = scan.prefix.len() as int;
        assert(key.take(m) =~= scan.prefix);
        assert(encode_utf8(Seq::<char>::empty()) =~= Seq::<u8>::empty());
        assert(read_by(scan, key) && holds_postings(g.store(), key, item));
    }
}

/// Some document among the first `n` has the posting.
spec fn posting_of(
    documents: Seq<Document>,
    field: Seq<char>,
    term: Seq<char>,
    item: PostingView,
    i: int,
) -> bool {
    &&& documents[i].id@ == item.id
    &&& field_text(documents[i].attributes@, field) is Some
    &&& item == text_posting(
        item.id,
        field_text(documents[i].attributes@, field)->0,
        term,
    )
}

proof fn lemma_posting_of(
    documents: Seq<Document>,
    field: Seq<char>,
    term: Seq<char>,
    n: nat,
    item: PostingView,
)
    requires
        n <= documents.len(),
        term_postings(documents, field, term, n).contains(item),
    ensures
        exists|i: int| 0 <= i < n && #[trigger] posting_of(documents, field, term, item, i),
    decreases n,
{
    if n > 0 {
        let m = (n - 1) as nat;
        let front = term_postings(documents, field, term, m);
        let text = field_text(documents[n - 1].attributes@, field);
        if has_term(text, term) {
            let own = text_posting(documents[n - 1].id@, text->0, term);
            crate::search::lemma_push_contains(front, own, item);
            if own == item {
                assert(posting_of(documents, field, term, item, n - 1));
            }
        }
        if front.contains(item) {
            lemma_posting_of(documents, field, term, m, item);
        }
    }
}

/// The items that did not change among the first `n`, by ID.
proof fn lemma_loaded(items: Seq<PostingView>, dirty: Set<Seq<char>>, n: nat, id: Seq<char>)
    requires
        n <= items.len(),
    ensures
        loaded(Map::empty(), items, dirty, n).contains_key(id) <==> !dirty.contains(id)
            && exists|i: int| 0 <= i < n && (#[trigger] items[i]).id == id,
        loaded(Map::empty(), items, dirty, n).contains_key(id) ==> items.contains(
            loaded(Map::empty(), items, dirty, n)[id],
        ) && loaded(Map::empty(), items, dirty, n)[id].id == id,
    decreases n,
{
    if n > 0 {
        lemma_loaded(items, dirty, (n - 1) as nat, id);
        assert(items.contains(items[n - 1]));
    }
}

/// Loading a list of postings with one posting an ID does not depend on their
/// order, or on how often each comes.
proof fn lemma_loaded_same(a: Seq<PostingView>, b: Seq<PostingView>, dirty: Set<Seq<char>>)
    requires
        forall|item: PostingView| #[trigger] a.contains(item) <==> b.contains(item),
        forall|x: PostingView, y: PostingView|
            #![trigger b.contains(x), b.contains(y)]
            b.contains(x) && b.contains(y) && x.id == y.id ==> x == y,
    ensures
        loaded(Map::empty(), a, dirty, a.len()) == loaded(Map::empty(), b, dirty, b.len()),
{
    let x = loaded(Map::empty(), a, dirty, a.len());
    let y = loaded(Map::empty(), b, dirty, b.len());
    assert forall|id: Seq<char>| #[trigger] x.contains_key(id) == y.contains_key(id) && (
    x.contains_key(id) ==> x[id] == y[id]) by {
        lemma_loaded(a, dirty, a.len(), id);
        lemma_loaded(b, dirty, b.len(), id);
        if x.contains_key(id) {
            assert(b.contains(x[id]));
            let j = choose|j: int| 0 <= j < b.len() && b[j] == x[id];
            assert(b[j].id == id);
        }
        if y.contains_key(id) {
            assert(a.contains(y[id]));
            let j = choose|j: int| 0 <= j < a.len() && a[j] == y[id];
            assert(a[j].id == id);
        }
    }
    assert forall|id: Seq<char>| x.dom().contains(id) <==> y.dom().contains(id) by {
        assert(x.contains_key(id) == y.contains_key(id));
    }
    assert(x =~= y);
}

/// What is loaded for a term are the postings of the unchanged documents.
proof fn lemma_term_loaded(lookup: TextLookup, g: Generation, inputs: Set<Seq<u8>>, term: Seq<char>)
    requires
        gathers_from(lookup, g, inputs),
        lookup.terms.contains(term),
    ensures
        ({
            let items = scan_postings(lookup.store, term_scan(lookup.prefix, lookup.field, term));
            loaded(Map::empty(), items, lookup.dirty, items.len()) == current_rows(
                built_documents(g).remove_keys(lookup.dirty),
                lookup.field,
                term,
            )
        }),
{
    let n = g.documents.len();
    let items = scan_postings(lookup.store, term_scan(lookup.prefix, lookup.field, term));
    let list = term_postings(g.documents, lookup.field, term, n);
    assert forall|item: PostingView| #[trigger] items.contains(item) <==> list.contains(item) by {
        lemma_term_read(g, inputs, lookup.field, term, item);
    }
    assert forall|x: PostingView, y: PostingView|
        #![trigger list.contains(x), list.contains(y)]
        list.contains(x) && list.contains(y) && x.id == y.id implies x == y by {
        lemma_posting_of(g.documents, lookup.field, term, n, x);
        lemma_posting_of(g.documents, lookup.field, term, n, y);
        let i = choose|i: int|
            0 <= i < n && #[trigger] posting_of(g.documents, lookup.field, term, x, i);
        let j = choose|j: int|
            0 <= j < n && #[trigger] posting_of(g.documents, lookup.field, term, y, j);
        if i < j {
            assert(g.documents[i].id@ != g.documents[j].id@);
        }
        if j < i {
            assert(g.documents[j].id@ != g.documents[i].id@);
        }
    }
    lemma_loaded_same(items, list, lookup.dirty);
    law_loaded_postings(g.documents, lookup.field, term, lookup.dirty, n);
}

/// Loading changes nothing but the postings of the loaded terms.
proof fn lemma_loads(lookup: TextLookup, g: Generation, inputs: Set<Seq<u8>>, n: nat)
    requires
        gathers_from(lookup, g, inputs),
        n <= lookup.terms.len(),
    ensures
        ({
            let kept = built_documents(g).remove_keys(lookup.dirty);
            let state = lookup.loads(n);
            &&& state.documents == lookup.started().documents
            &&& state.tokens == lookup.started().tokens
            &&& state.eligible == lookup.started().eligible
            &&& state.postings.dom() == lookup.terms
            &&& forall|term: Seq<char>| #[trigger]
                lookup.terms.contains(term) ==> state.postings[term] == if ordered(
                    lookup.terms,
                ).take(n as int).contains(term) {
                    current_rows(kept, lookup.field, term)
                } else {
                    Map::empty()
                }
        }),
    decreases n,
{
    let names = ordered(lookup.terms);
    lemma_ordered_members(lookup.terms);
    if n == 0 {
        assert(lookup.started().postings.dom() =~= lookup.terms);
    } else {
        let m = (n - 1) as nat;
        lemma_loads(lookup, g, inputs, m);
        let term = names[n - 1];
        let front = names.take(m as int);
        assert(names.contains(names[n - 1]));
        assert(lookup.terms.contains(term));
        assert(names.take(n as int) =~= front.push(term));
        assert(!front.contains(term)) by {
            if front.contains(term) {
                let k = choose|k: int| 0 <= k < front.len() && front[k] == term;
                assert(names[k] == names[n - 1]);
            }
        }
        lemma_term_loaded(lookup, g, inputs, term);
        assert(lookup.loads(n).postings.dom() =~= lookup.terms);
        assert forall|t: Seq<char>| #[trigger] lookup.terms.contains(t) implies lookup.loads(
            n,
        ).postings[t] == if names.take(n as int).contains(t) {
            current_rows(
                built_documents(g).remove_keys(lookup.dirty),
                lookup.field,
                t,
            )
        } else {
            Map::empty()
        } by {
            crate::search::lemma_push_contains(front, term, t);
        }
    }
}

// ---------------------------------------------------------------------------
// Statistics, filter matches and lengths
// ---------------------------------------------------------------------------
proof fn lemma_no_documents(documents: Seq<Document>, field: Seq<char>, n: nat)
    ensures
        field_documents(documents, field, n) == 0 ==> field_tokens(documents, field, n) == 0,
    decreases n,
{
    if n > 0 {
        lemma_no_documents(documents, field, (n - 1) as nat);
    }
}

proof fn lemma_started(lookup: TextLookup, g: Generation, inputs: Set<Seq<u8>>)
    requires
        gathers_from(lookup, g, inputs),
    ensures
        ({
            let base = index_base(
                built_documents(g),
                lookup.dirty,
                lookup.field,
                lookup.terms,
                lookup.filter,
            );
            &&& lookup.started().documents == base.documents
            &&& lookup.started().tokens == base.tokens
            &&& lookup.started().eligible == base.eligible
        }),
{
    let n = g.documents.len();
    let built = built_documents(g);
    let kept = built.remove_keys(lookup.dirty);
    lemma_field_bounds(g.documents, lookup.field, n);
    lemma_no_documents(g.documents, lookup.field, n);
    law_index_statistics(g.documents, lookup.field, n);
    lemma_attributes_by_id(g.documents, n);
    assert(n * u32::MAX <= u64::MAX) by (nonlinear_arith)
        requires
            n <= u32::MAX,
    ;
    if lookup.selected is Some {
        let ids = lookup.selected->0;
        let target = current_eligible(kept, lookup.filter)->0;
        assert forall|id: Seq<char>| #[trigger] ids.difference(lookup.dirty).contains(id)
            <==> target.contains(id) by {
            if ids.contains(id) {
                let i = choose|i: int| #[trigger]
                    accepted_document(g.documents, lookup.filter, id, i);
                assert(built[g.documents[i].id@] == g.documents[i].attributes@);
            }
            if built.contains_key(id) && lookup.filter.accepts(built[id]) {
                let i = choose|i: int| 0 <= i < n && (#[trigger] g.documents[i]).id@ == id;
                assert(accepted_document(g.documents, lookup.filter, id, i));
            }
        }
        assert(ids.difference(lookup.dirty) =~= target);
    }
}

/// A generation counted the text that its document had.
proof fn lemma_counted(lookup: TextLookup, g: Generation, inputs: Set<Seq<u8>>, id: Seq<char>)
    requires
        gathers_from(lookup, g, inputs),
    ensures
        lookup.counted(id) == match built_text(built_documents(g), lookup.field, id) {
            Some(text) => Some(tokens(text).len()),
            None => None,
        },
{
    let built = built_documents(g);
    let key = lengths_key(g.prefix, id);
    let fields = g.fields();
    lemma_attributes_by_id(g.documents, g.documents.len());
    if built_text(built, lookup.field, id) is Some {
        let i = choose|i: int|
            0 <= i < g.documents.len() && (#[trigger] g.documents[i]).id@ == id;
        let entry = length_entry(g.prefix, g.documents[i], fields);
        let terms = field_terms(g.documents[i].attributes@, fields);
        assert(terms.contains_key(lookup.field));
        vstd::seq_lib::seq_to_set_is_finite(fields);
        assert(terms.dom().subset_of(fields.to_set()));
        vstd::set_lib::lemma_set_subset_finite(fields.to_set(), terms.dom());
        assert(terms.dom().contains(lookup.field));
        assert(terms.dom().len() > 0) by {
            if terms.dom().len() == 0 {
                assert(terms.dom() =~= Set::empty());
            }
        }
        assert(is_length_entry(g, entry));
        lemma_entry_forms(g, entry);
        lemma_store(g, entry.key, entry.value);
    } else if g.store().contains_key(key) && g.store()[key] is Lengths {
        let value = g.store()[key];
        let entry = EntryView { key, value };
        lemma_store(g, key, value);
        lemma_entry_forms(g, entry);
        lemma_entry_kinds(g, entry);
        let i = choose|i: int|
            0 <= i < g.documents.len() && field_terms(
                g.documents[i].attributes@,
                fields,
            ).dom().len() > 0 && entry == #[trigger] length_entry(g.prefix, g.documents[i], fields);
        let start = (g.prefix + seq!['l', '/']).len() as int;
        assert(key.skip(start) =~= id);
        assert(lengths_key(g.prefix, g.documents[i].id@).skip(start) =~= g.documents[i].id@);
        assert(built[g.documents[i].id@] == g.documents[i].attributes@);
    }
}

// ---------------------------------------------------------------------------
// Agreement
// ---------------------------------------------------------------------------
proof fn lemma_overlays(lookup: TextLookup, g: Generation, inputs: Set<Seq<u8>>, n: nat)
    requires
        gathers_from(lookup, g, inputs),
        n <= lookup.dirty.len(),
    ensures
        lookup.overlays(n) == overlaid(
            lookup.live,
            built_documents(g),
            ordered(lookup.dirty),
            lookup.field,
            lookup.terms,
            lookup.filter,
            n,
        ),
    decreases n,
{
    let built = built_documents(g);
    let dirty = ordered(lookup.dirty);
    lemma_ordered_members(lookup.dirty);
    if n == 0 {
        let kept = built.remove_keys(lookup.dirty);
        let names = ordered(lookup.terms);
        let all = lookup.terms.len();
        let target = current_postings(kept, lookup.field, lookup.terms);
        lemma_started(lookup, g, inputs);
        lemma_loads(lookup, g, inputs, all);
        lemma_ordered_members(lookup.terms);
        assert(names.take(all as int) =~= names);
        assert forall|t: Seq<char>| lookup.terms.contains(t) implies #[trigger] lookup.loads(
            all,
        ).postings[t] == target[t] by {
            assert(names.contains(t));
        }
        assert(lookup.loads(all).postings =~= target);
        assert(dirty.to_set() =~= lookup.dirty) by {
            assert forall|id: Seq<char>| #[trigger] dirty.to_set().contains(id)
                <==> lookup.dirty.contains(id) by {
                assert(dirty.contains(id) <==> lookup.dirty.contains(id));
            }
        }
    } else {
        lemma_overlays(lookup, g, inputs, (n - 1) as nat);
        lemma_counted(lookup, g, inputs, dirty[n - 1]);
    }
}

/// Loading every term of a query from the stored entries of a generation, and
/// laying every changed document over it, gathers the statistics, postings and
/// filter matches of the current documents. At each step the statistics still
/// hold the text that is taken out.
pub proof fn law_index_gathers_current(lookup: TextLookup, g: Generation, inputs: Set<Seq<u8>>)
    requires
        gathers_from(lookup, g, inputs),
    ensures
        lookup.gathered() == overlaid(
            lookup.live,
            built_documents(g),
            ordered(lookup.dirty),
            lookup.field,
            lookup.terms,
            lookup.filter,
            lookup.dirty.len(),
        ),
        lookup.gathered() == current(lookup.live, lookup.field, lookup.terms, lookup.filter),
        forall|n: nat|
            n < lookup.dirty.len() ==> {
                let before = #[trigger] lookup.overlays(n);
                lookup.counted(ordered(lookup.dirty)[n as int]) matches Some(length)
                    ==> before.documents >= 1 && before.tokens >= length
            },
{
    let built = built_documents(g);
    let dirty = ordered(lookup.dirty);
    lemma_ordered_members(lookup.dirty);
    lemma_attributes_by_id(g.documents, g.documents.len());
    lemma_overlays(lookup, g, inputs, lookup.dirty.len());
    assert(dirty.to_set() =~= lookup.dirty) by {
        assert forall|id: Seq<char>| #[trigger] dirty.to_set().contains(id)
            <==> lookup.dirty.contains(id) by {
            assert(dirty.contains(id) <==> lookup.dirty.contains(id));
        }
    }
    law_overlay_gathers_current(
        lookup.live,
        built,
        dirty,
        lookup.field,
        lookup.terms,
        lookup.filter,
    );
    assert forall|n: nat| n < lookup.dirty.len() implies {
        let before = #[trigger] lookup.overlays(n);
        lookup.counted(dirty[n as int]) matches Some(length) ==> before.documents >= 1
            && before.tokens >= length
    } by {
        lemma_overlays(lookup, g, inputs, n);
        lemma_counted(lookup, g, inputs, dirty[n as int]);
        law_overlay_has_text(
            lookup.live,
            built,
            dirty,
            lookup.field,
            lookup.terms,
            lookup.filter,
            n,
        );
    }
}

/// A text query scores the same whether there is no index yet, the index lags
/// behind the documents, or it was just rebuilt: the scan and the two searches
/// gather the same, and so match the same documents with the same postings.
pub proof fn law_text_searches_agree(
    listing: Seq<Listed>,
    lagging: TextLookup,
    g: Generation,
    rebuilt: TextLookup,
    fresh: Generation,
    inputs: Set<Seq<u8>>,
)
    requires
        forall|i: int, j: int| 0 <= i < j < listing.len() ==> listing[i].id != listing[j].id,
        gathers_from(lagging, g, inputs),
        gathers_from(rebuilt, fresh, inputs),
        lagging.live == by_id(listing, listing.len()),
        rebuilt.live == lagging.live,
        rebuilt.field == lagging.field,
        rebuilt.terms == lagging.terms,
        rebuilt.filter == lagging.filter,
    ensures
        ({
            let scan = scanned(
                listing,
                lagging.field,
                lagging.terms,
                lagging.filter,
                listing.len(),
            );
            &&& lagging.gathered() == scan
            &&& rebuilt.gathered() == scan
            &&& all_matches(lagging.gathered()) == all_matches(scan)
            &&& all_matches(rebuilt.gathered()) == all_matches(scan)
        }),
{
    law_scan_gathers_current(
        listing,
        lagging.field,
        lagging.terms,
        lagging.filter,
        listing.len(),
    );
    law_index_gathers_current(lagging, g, inputs);
    law_index_gathers_current(rebuilt, fresh, inputs);
}

/// A text query answers the same in the three cases: whatever scores follow from
/// what is gathered, the best `k` are the same IDs with the same scores and
/// attributes in the same order. The plan of the first is a scan, that of the
/// others the index.
pub proof fn law_text_answers_agree(
    listing: Seq<Listed>,
    lagging: TextLookup,
    g: Generation,
    rebuilt: TextLookup,
    fresh: Generation,
    inputs: Set<Seq<u8>>,
    score: spec_fn(Gathered) -> Seq<Hit>,
    k: nat,
    attributes: Seq<Seq<Option<TextMap<Json>>>>,
    matches: Seq<Seq<SearchHit>>,
)
    requires
        forall|i: int, j: int| 0 <= i < j < listing.len() ==> listing[i].id != listing[j].id,
        gathers_from(lagging, g, inputs),
        gathers_from(rebuilt, fresh, inputs),
        lagging.live == by_id(listing, listing.len()),
        rebuilt.live == lagging.live,
        rebuilt.field == lagging.field,
        rebuilt.terms == lagging.terms,
        rebuilt.filter == lagging.filter,
        attributes.len() == 3,
        matches.len() == 3,
        ({
            let scan = scanned(
                listing,
                lagging.field,
                lagging.terms,
                lagging.filter,
                listing.len(),
            );
            let best = seq![
                top_k(score(scan), k),
                top_k(score(lagging.gathered()), k),
                top_k(score(rebuilt.gathered()), k),
            ];
            forall|i: int|
                0 <= i < 3 ==> attributes_read(
                    lagging.live,
                    #[trigger] best[i],
                    attributes[i],
                ) && matches_hits(matches[i], best[i], attributes[i])
        }),
    ensures
        same_matches(matches[0], matches[1]),
        same_matches(matches[0], matches[2]),
        text_plan(false) == "bm25_scan"@,
        text_plan(true) == "bm25_index"@,
{
    law_text_searches_agree(listing, lagging, g, rebuilt, fresh, inputs);
    let scan = scanned(listing, lagging.field, lagging.terms, lagging.filter, listing.len());
    let first = top_k(score(scan), k);
    let best = seq![
        first,
        top_k(score(lagging.gathered()), k),
        top_k(score(rebuilt.gathered()), k),
    ];
    assert(best[0] == first && best[1] == first && best[2] == first);
    lemma_same_matches(
        lagging.live,
        first,
        attributes[0],
        attributes[1],
        matches[0],
        matches[1],
    );
    lemma_same_matches(
        lagging.live,
        first,
        attributes[0],
        attributes[2],
        matches[0],
        matches[2],
    );
}

// ---------------------------------------------------------------------------
// Filtered answers
// ---------------------------------------------------------------------------
/// Filtering two lists that go together, by tests that agree, keeps what goes
/// together.
proof fn lemma_filter_together<A, B>(
    a: Seq<A>,
    b: Seq<B>,
    p: spec_fn(A) -> bool,
    q: spec_fn(B) -> bool,
    together: spec_fn(A, B) -> bool,
)
    requires
        a.len() == b.len(),
        forall|i: int|
            #![trigger a[i]]
            #![trigger b[i]]
            0 <= i < a.len() ==> p(a[i]) == q(b[i]) && together(a[i], b[i]),
    ensures
        a.filter(p).len() == b.filter(q).len(),
        forall|i: int|
            #![trigger a.filter(p)[i]]
            #![trigger b.filter(q)[i]]
            0 <= i < a.filter(p).len() ==> together(a.filter(p)[i], b.filter(q)[i]),
    decreases a.len(),
{
    reveal(Seq::filter);
    if a.len() > 0 {
        let x = a.drop_last();
        let y = b.drop_last();
        assert forall|i: int|
            #![trigger x[i]]
            #![trigger y[i]]
            0 <= i < x.len() implies p(x[i]) == q(y[i]) && together(x[i], y[i]) by {
            assert(x[i] == a[i] && y[i] == b[i]);
        }
        lemma_filter_together(x, y, p, q, together);
        assert(p(a[a.len() - 1]) == q(b[a.len() - 1]));
    }
}

/// A text query with a filter answers with the matches of the query without it
/// whose attributes satisfy the filter: the same IDs with the same scores and
/// attributes in the same order, if both have room for every hit. `filtered`
/// and `whole` are what the two queries gather, by a scan or from an index.
pub proof fn law_filter_restricts_answers(
    documents: Documents,
    field: Seq<char>,
    terms: Set<Seq<char>>,
    filter: Filter,
    open: Filter,
    filtered: Gathered,
    whole: Gathered,
    score: TextScore,
    k: nat,
    all: nat,
    some_attributes: Seq<Option<TextMap<Json>>>,
    every_attributes: Seq<Option<TextMap<Json>>>,
    some: Seq<SearchHit>,
    every: Seq<SearchHit>,
)
    requires
        documents.dom().finite(),
        terms.finite(),
        open.unrestricted(),
        filtered == current(documents, field, terms, filter),
        whole == current(documents, field, terms, open),
        text_hits(filtered, score).len() <= k,
        text_hits(whole, score).len() <= all,
        attributes_read(documents, top_k(text_hits(filtered, score), k), some_attributes),
        attributes_read(documents, top_k(text_hits(whole, score), all), every_attributes),
        matches_hits(some, top_k(text_hits(filtered, score), k), some_attributes),
        matches_hits(every, top_k(text_hits(whole, score), all), every_attributes),
    ensures
        same_matches(some, every.filter(|hit: SearchHit| filter.accepts(hit.attributes@))),
{
    let best = top_k(text_hits(whole, score), all);
    let left = top_k(text_hits(filtered, score), k);
    let p = |hit: SearchHit| filter.accepts(hit.attributes@);
    let q = |hit: Hit| filter.accepts(documents[hit.id]);
    let together = |hit: SearchHit, ranked: Hit|
        hit.id@ == ranked.id && hit.score == ranked.score && documents.contains_key(ranked.id)
            && hit.attributes@ == documents[ranked.id];
    law_filter_restricts_ranking(documents, field, terms, filter, open, score, k, all);
    assert forall|i: int|
        #![trigger every[i]]
        #![trigger best[i]]
        0 <= i < every.len() implies p(every[i]) == q(best[i]) && together(every[i], best[i]) by {
        assert(every_attributes[i] == Some(every[i].attributes));
        assert(documents.contains_key(best[i].id));
    }
    lemma_filter_together(every, best, p, q, together);
    let kept = every.filter(p);
    assert(left == best.filter(q));
    assert forall|i: int| 0 <= i < some.len() implies (#[trigger] some[i]).id@ == kept[i].id@
        && some[i].score == kept[i].score && some[i].attributes@ == kept[i].attributes@ by {
        assert(together(kept[i], best.filter(q)[i]));
        assert(some[i].id@ == left[i].id);
        assert(some_attributes[i] == Some(some[i].attributes));
    }
}

} // verus!
