//! Text search: corpus statistics and postings of the current documents, taken
//! from a scan or from an index with the pending changes laid over it.
use vstd::prelude::*;
use vstd::string::*;

use crate::error::{invalid, ErrorView, Result};
use crate::index::Corpus;
use crate::json::Json;
use crate::model::{law_filters_select, Filter, QueryResult};
use crate::postings::{posting_views, Posting, PostingView};
use crate::ranking::{
    first, hits, law_ranking_restricts, lemma_ranking, ranking, top_k, Hit, Ranked,
};
use crate::search::{all_present, hydrate, id_set, keep, matches_hits};
use crate::terms::{
    field_text, frequencies, lemma_positions, lemma_token_count, occurrences, positions, terms_of,
    text_of, tokenize, tokens, Terms,
};
use crate::text::text_lt;
use crate::textmap::{
    lemma_ascending_distinct, lemma_ordered, lemma_ordered_exists, ordered, TextMap,
};

verus! {

pub const MAX_QUERY_TERMS: usize = 32;

/// The attributes of documents, by ID.
pub type Documents = Map<Seq<char>, Map<Seq<char>, Json>>;

// ---------------------------------------------------------------------------
// What a search gathers
// ---------------------------------------------------------------------------
/// The statistics of a field, the postings of the query's terms by ID, and the
/// IDs that pass the filter, if there is one.
#[verifier::ext_equal]
pub struct Gathered {
    pub documents: int,
    pub tokens: int,
    pub postings: Map<Seq<char>, Map<Seq<char>, PostingView>>,
    pub eligible: Option<Set<Seq<char>>>,
}

pub open spec fn text_posting(id: Seq<char>, text: Seq<char>, term: Seq<char>) -> PostingView {
    PostingView {
        id,
        frequency: occurrences(tokens(text), term) as u32,
        length: tokens(text).len() as u32,
    }
}

/// The text, if there is one, has the term.
pub open spec fn has_term(text: Option<Seq<char>>, term: Seq<char>) -> bool {
    text is Some && tokens(text->0).contains(term)
}

pub open spec fn text_count(text: Option<Seq<char>>) -> int {
    if text is Some {
        1
    } else {
        0
    }
}

pub open spec fn text_tokens(text: Option<Seq<char>>) -> int {
    match text {
        Some(t) => tokens(t).len() as int,
        None => 0,
    }
}

impl Gathered {
    /// One more document.
    pub open spec fn with_document(
        self,
        field: Seq<char>,
        filter: Filter,
        id: Seq<char>,
        attributes: Map<Seq<char>, Json>,
    ) -> Gathered {
        let text = field_text(attributes, field);
        Gathered {
            documents: self.documents + text_count(text),
            tokens: self.tokens + text_tokens(text),
            postings: self.postings.map_entries(
                |term: Seq<char>, rows: Map<Seq<char>, PostingView>|
                    if has_term(text, term) {
                        rows.insert(id, text_posting(id, text->0, term))
                    } else {
                        rows
                    },
            ),
            eligible: match self.eligible {
                Some(ids) => if filter.accepts(attributes) {
                    Some(ids.insert(id))
                } else {
                    Some(ids)
                },
                None => None,
            },
        }
    }

    /// The statistics without the text that an index counted for a document.
    pub open spec fn without_text(self, text: Option<Seq<char>>) -> Gathered {
        Gathered {
            documents: self.documents - text_count(text),
            tokens: self.tokens - text_tokens(text),
            ..self
        }
    }
}

/// A text search in progress.
pub struct TextSearch {
    pub corpus: Corpus,
    pub postings: TextMap<TextMap<Posting>>,
    pub eligible: Option<TextMap<()>>,
}

pub open spec fn posting_map(rows: Map<Seq<char>, Posting>) -> Map<Seq<char>, PostingView> {
    rows.map_values(|p: Posting| p@)
}

pub open spec fn postings_map(postings: Map<Seq<char>, TextMap<Posting>>) -> Map<
    Seq<char>,
    Map<Seq<char>, PostingView>,
> {
    postings.map_values(|rows: TextMap<Posting>| posting_map(rows@))
}

impl View for TextSearch {
    type V = Gathered;

    open spec fn view(&self) -> Gathered {
        Gathered {
            documents: self.corpus.documents as int,
            tokens: self.corpus.tokens as int,
            postings: postings_map(self.postings@),
            eligible: id_set(self.eligible),
        }
    }
}

/// The statistics that an index has of a field.
pub open spec fn field_corpus(text: Map<Seq<char>, Corpus>, field: Seq<char>) -> Corpus {
    if text.contains_key(field) {
        text[field]
    } else {
        Corpus { documents: 0, tokens: 0 }
    }
}

/// The number of tokens that an index counted for a field of a document.
pub open spec fn counted_length(counted: Option<&TextMap<Terms>>, field: Seq<char>) -> Option<u32> {
    match counted {
        Some(terms) => if terms@.contains_key(field) {
            Some(terms@[field].length)
        } else {
            None
        },
        None => None,
    }
}

/// No postings yet for any term.
pub open spec fn no_postings(terms: Set<Seq<char>>) -> Map<Seq<char>, Map<Seq<char>, PostingView>> {
    Map::new(|t: Seq<char>| terms.contains(t), |t: Seq<char>| Map::empty())
}

/// A query has between 1 and 32 distinct terms.
pub open spec fn query_terms_valid(text: Seq<char>) -> bool {
    1 <= frequencies(tokens(text)).dom().len() <= MAX_QUERY_TERMS
}

/// The distinct terms of a query.
pub fn query_terms(text: &str) -> (result: Result<Terms>)
    requires
        text@.len() <= u32::MAX,
    ensures
        match result {
            Ok(terms) => query_terms_valid(text@) && terms@ == terms_of(text@),
            Err(e) => !query_terms_valid(text@) && e@ == ErrorView::Invalid(
                "text query requires 1..32 distinct terms"@,
            ),
        },
{
    let terms = tokenize(text);
    let count = terms.frequencies.len();
    if count == 0 || count > MAX_QUERY_TERMS {
        return Err(invalid("text query requires 1..32 distinct terms"));
    }
    Ok(terms)
}

impl TextSearch {
    /// A search for the terms of a query that has gathered nothing yet.
    pub fn new(terms: &Terms, corpus: Corpus, eligible: Option<TextMap<()>>) -> (search: TextSearch)
        ensures
            search@ == (Gathered {
                documents: corpus.documents as int,
                tokens: corpus.tokens as int,
                postings: no_postings(terms@.frequencies.dom()),
                eligible: id_set(eligible),
            }),
    {
        let count = terms.frequencies.len();
        let ghost names = terms.frequencies.keys();
        let mut postings: TextMap<TextMap<Posting>> = TextMap::new();
        assert(postings_map(postings@) =~= no_postings(names.take(0).to_set()));
        let mut i: usize = 0;
        while i < count
            invariant
                i <= count,
                count == names.len(),
                names == terms.frequencies.keys(),
                postings_map(postings@) == no_postings(names.take(i as int).to_set()),
            decreases count - i,
        {
            let ghost before = postings@;
            let term = terms.frequencies.key(i).clone();
            let rows: TextMap<Posting> = TextMap::new();
            let ghost name = term@;
            let ghost empty = rows@;
            let _ = postings.insert(term, rows);
            proof {
                let front = names.take(i as int);
                let next = names.take(i + 1);
                assert(next =~= front.push(name));
                assert forall|t: Seq<char>| #[trigger] next.to_set().contains(t) == front.to_set().insert(
                    name,
                ).contains(t) by {
                    crate::search::lemma_push_contains(front, name, t);
                }
                assert(posting_map(empty) =~= Map::<Seq<char>, PostingView>::empty());
                assert(postings_map(postings@) =~= postings_map(before).insert(
                    name,
                    posting_map(empty),
                ));
                assert(postings_map(postings@) =~= no_postings(next.to_set()));
            }
            i += 1;
        }
        assert(names.take(i as int) =~= names);
        terms.frequencies.check();
        TextSearch { corpus, postings, eligible }
    }

    /// A search that will look at every document.
    pub fn scan(terms: &Terms, filter: &Filter) -> (search: TextSearch)
        ensures
            search@ == (Gathered {
                documents: 0,
                tokens: 0,
                postings: no_postings(terms@.frequencies.dom()),
                eligible: if filter.unrestricted() {
                    None
                } else {
                    Some(Set::empty())
                },
            }),
    {
        let eligible: Option<TextMap<()>> = if filter.is_unrestricted() {
            None
        } else {
            Some(TextMap::new())
        };
        proof {
            if eligible is Some {
                assert(eligible->0@.dom() =~= Set::<Seq<char>>::empty());
            }
        }
        TextSearch::new(terms, Corpus { documents: 0, tokens: 0 }, eligible)
    }

    /// A search that starts from an index: its statistics of the field, and the
    /// IDs that it lists for the filter without those of changed documents.
    pub fn indexed(
        terms: &Terms,
        text: &TextMap<Corpus>,
        field: &str,
        selected: &Option<TextMap<()>>,
        dirty: &TextMap<()>,
    ) -> (search: TextSearch)
        ensures
            search@ == (Gathered {
                documents: field_corpus(text@, field@).documents as int,
                tokens: field_corpus(text@, field@).tokens as int,
                postings: no_postings(terms@.frequencies.dom()),
                eligible: match id_set(*selected) {
                    Some(ids) => Some(ids.difference(dirty@.dom())),
                    None => None,
                },
            }),
    {
        let corpus = match text.get(field) {
            Some(corpus) => *corpus,
            None => Corpus { documents: 0, tokens: 0 },
        };
        let eligible: Option<TextMap<()>> = match selected {
            Some(ids) => {
                let kept = keep(ids, dirty, false);
                assert(kept@.dom() =~= ids@.dom().difference(dirty@.dom())) by {
                    assert forall|id: Seq<char>| #[trigger] kept@.dom().contains(id)
                        == ids@.dom().difference(dirty@.dom()).contains(id) by {
                        assert(kept@.contains_key(id) == kept@.dom().contains(id));
                    }
                }
                Some(kept)
            },
            None => None,
        };
        TextSearch::new(terms, corpus, eligible)
    }

    /// Lays a changed document over an index: takes out the text that the index
    /// counted for it and adds its current state, if there is one.
    pub fn overlay(
        &mut self,
        id: &str,
        counted: Option<&TextMap<Terms>>,
        current: Option<&TextMap<Json>>,
        field: &str,
        filter: &Filter,
    )
        requires
            counted_length(counted, field@) matches Some(length) ==> old(self).corpus.documents >= 1
                && old(self).corpus.tokens >= length,
            current is Some ==> (field_text(current->0@, field@) is Some ==> field_text(
                current->0@,
                field@,
            )->0.len() <= u32::MAX),
            old(self).corpus.documents < u64::MAX,
            old(self).corpus.tokens <= u64::MAX - u32::MAX,
        ensures
            final(self)@ == ({
                let front = match counted_length(counted, field@) {
                    Some(length) => Gathered {
                        documents: old(self)@.documents - 1,
                        tokens: old(self)@.tokens - length,
                        ..old(self)@
                    },
                    None => old(self)@,
                };
                match current {
                    Some(attributes) => front.with_document(field@, *filter, id@, attributes@),
                    None => front,
                }
            }),
    {
        if let Some(terms) = counted {
            if let Some(old_terms) = terms.get(field) {
                self.retract(old_terms.length);
            }
        }
        if let Some(attributes) = current {
            self.add_text_document(id, attributes, field, filter);
        }
    }

    /// Adds the rows of one term.
    fn with_row(&mut self, term: &str, posting: Posting)
        requires
            old(self).postings@.contains_key(term@),
        ensures
            final(self)@ == (Gathered {
                postings: old(self)@.postings.insert(
                    term@,
                    old(self)@.postings[term@].insert(posting@.id, posting@),
                ),
                ..old(self)@
            }),
            final(self).postings@.dom() == old(self).postings@.dom(),
    {
        let ghost before = self@;
        let ghost added = posting@;
        match self.postings.remove(term) {
            Some(mut rows) => {
                let ghost old_rows = rows@;
                let _ = rows.insert(posting.id.clone(), posting);
                proof {
                    assert(posting_map(rows@) =~= posting_map(old_rows).insert(added.id, added));
                }
                let ghost new_rows = rows@;
                let _ = self.postings.insert(term.to_string(), rows);
                proof {
                    assert(self@.postings =~= before.postings.insert(
                        term@,
                        before.postings[term@].insert(added.id, added),
                    ));
                    assert(self.postings@.dom() =~= old(self).postings@.dom());
                }
            },
            None => {},
        }
    }

    /// Adds a current document: its text to the statistics and postings, and its
    /// ID to those that pass the filter.
    pub fn add_text_document(&mut self, id: &str, attributes: &TextMap<Json>, field: &str, filter: &Filter)
        requires
            field_text(attributes@, field@) is Some ==> field_text(attributes@, field@)->0.len()
                <= u32::MAX,
            old(self).corpus.documents < u64::MAX,
            old(self).corpus.tokens <= u64::MAX - u32::MAX,
        ensures
            final(self)@ == old(self)@.with_document(field@, *filter, id@, attributes@),
    {
        let ghost start = self@;
        let ghost text = field_text(attributes@, field@);
        let ghost terms_set = self.postings@.dom();
        match text_of(attributes, field) {
            Some(content) => {
                let terms = tokenize(content.as_str());
                proof {
                    lemma_token_count(content@);
                }
                self.corpus = Corpus {
                    documents: self.corpus.documents + 1,
                    tokens: self.corpus.tokens + terms.length as u64,
                };
                let count = terms.frequencies.len();
                let ghost names = terms.frequencies.keys();
                let ghost target = start.with_document(field@, *filter, id@, attributes@);
                let mut i: usize = 0;
                proof {
                    assert(self@.postings == start.postings);
                }
                while i < count
                    invariant
                        i <= count,
                        count == names.len(),
                        names == terms.frequencies.keys(),
                        terms.frequencies.coherent(),
                        text == Some(content@),
                        terms@ == terms_of(content@),
                        self@.documents == start.documents + 1,
                        self@.tokens == start.tokens + tokens(content@).len(),
                        self@.eligible == start.eligible,
                        self.postings@.dom() == terms_set,
                        start.postings.dom() == terms_set,
                        forall|t: Seq<char>| #[trigger]
                            terms_set.contains(t) ==> self@.postings[t] == if names.take(
                                i as int,
                            ).contains(t) {
                                start.postings[t].insert(id@, text_posting(id@, content@, t))
                            } else {
                                start.postings[t]
                            },
                    decreases count - i,
                {
                    let term = terms.frequencies.key(i);
                    let frequency = *terms.frequencies.value(i);
                    let ghost name = names[i as int];
                    let ghost before = self@;
                    if self.postings.contains(term.as_str()) {
                        let posting = Posting {
                            id: id.to_string(),
                            frequency,
                            length: terms.length,
                        };
                        proof {
                            assert(terms@.frequencies.contains_key(name));
                            assert(posting@ == text_posting(id@, content@, name));
                        }
                        self.with_row(term.as_str(), posting);
                    }
                    proof {
                        let front = names.take(i as int);
                        assert(names.take(i + 1) =~= front.push(name));
                        crate::textmap::lemma_ascending_distinct(names);
                        assert(!front.contains(name)) by {
                            if front.contains(name) {
                                let k = choose|k: int| 0 <= k < front.len() && front[k] == name;
                                assert(names[k] == names[i as int]);
                            }
                        }
                        assert forall|t: Seq<char>| #[trigger] terms_set.contains(t) implies self@.postings[t]
                            == if names.take(i + 1).contains(t) {
                            start.postings[t].insert(id@, text_posting(id@, content@, t))
                        } else {
                            start.postings[t]
                        } by {
                            crate::search::lemma_push_contains(front, name, t);
                            assert(before.postings.contains_key(t));
                        }
                    }
                    i += 1;
                }
                proof {
                    assert(names.take(i as int) =~= names);
                    assert(self@.postings =~= target.postings) by {
                        assert forall|t: Seq<char>| #[trigger] terms_set.contains(t) implies self@.postings[t]
                            == target.postings[t] by {
                            assert(names.contains(t) == names.to_set().contains(t));
                            assert(terms@.frequencies.dom().contains(t) == names.contains(t));
                            assert(terms@.frequencies.contains_key(t) == tokens(content@).contains(t));
                        }
                    }
                }
            },
            None => {
                assert(self@.postings =~= start.with_document(
                    field@,
                    *filter,
                    id@,
                    attributes@,
                ).postings);
            },
        }
        let ghost middle = self@;
        let mut eligible: Option<TextMap<()>> = None;
        std::mem::swap(&mut self.eligible, &mut eligible);
        match eligible {
            Some(mut ids) => {
                let ghost old_ids = ids@.dom();
                if filter.matches(attributes) {
                    let _ = ids.insert(id.to_string(), ());
                    assert(ids@.dom() =~= old_ids.insert(id@));
                }
                self.eligible = Some(ids);
            },
            None => {},
        }
        assert(self@ =~= start.with_document(field@, *filter, id@, attributes@));
    }

    /// Loads the indexed postings of a term, without those of changed documents.
    pub fn load(&mut self, term: &str, items: &Vec<Posting>, dirty: &TextMap<()>)
        requires
            old(self).postings@.contains_key(term@),
        ensures
            final(self)@ == (Gathered {
                postings: old(self)@.postings.insert(
                    term@,
                    loaded(
                        old(self)@.postings[term@],
                        posting_views(items@),
                        dirty@.dom(),
                        items@.len(),
                    ),
                ),
                ..old(self)@
            }),
            final(self).postings@.dom() == old(self).postings@.dom(),
    {
        let ghost start = self@;
        let ghost view = posting_views(items@);
        let mut i: usize = 0;
        assert(start.postings =~= start.postings.insert(
            term@,
            loaded(start.postings[term@], view, dirty@.dom(), 0),
        ));
        while i < items.len()
            invariant
                i <= items@.len(),
                view == posting_views(items@),
                self.postings@.contains_key(term@),
                self.postings@.dom() == old(self).postings@.dom(),
                self@ == (Gathered {
                    postings: start.postings.insert(
                        term@,
                        loaded(start.postings[term@], view, dirty@.dom(), i as nat),
                    ),
                    ..start
                }),
            decreases items@.len() - i,
        {
            let ghost before = self@;
            assert(view[i as int] == items@[i as int]@);
            if !dirty.contains(items[i].id.as_str()) {
                self.with_row(term, items[i].copy());
                assert(self@.postings =~= start.postings.insert(
                    term@,
                    loaded(start.postings[term@], view, dirty@.dom(), (i + 1) as nat),
                ));
            }
            i += 1;
        }
    }

    /// Takes the indexed text of a changed document, of `length` tokens, out of
    /// the statistics.
    pub fn retract(&mut self, length: u32)
        requires
            old(self).corpus.documents >= 1,
            old(self).corpus.tokens >= length,
        ensures
            final(self)@ == (Gathered {
                documents: old(self)@.documents - 1,
                tokens: old(self)@.tokens - length,
                ..old(self)@
            }),
            final(self).postings@ == old(self).postings@,
    {
        self.corpus = Corpus {
            documents: self.corpus.documents - 1,
            tokens: self.corpus.tokens - length as u64,
        };
    }
}

/// The rows after the first `n` items that did not change have been put in.
pub open spec fn loaded(
    rows: Map<Seq<char>, PostingView>,
    items: Seq<PostingView>,
    dirty: Set<Seq<char>>,
    n: nat,
) -> Map<Seq<char>, PostingView>
    decreases n,
{
    if n == 0 {
        rows
    } else {
        let front = loaded(rows, items, dirty, (n - 1) as nat);
        if dirty.contains(items[n - 1].id) {
            front
        } else {
            front.insert(items[n - 1].id, items[n - 1])
        }
    }
}

// ---------------------------------------------------------------------------
// Matches
// ---------------------------------------------------------------------------
/// The postings of one term: `documents` counts all documents that have it,
/// `matches` are those that pass the filter, by ascending ID.
pub struct TermMatches {
    pub documents: usize,
    pub matches: Vec<Posting>,
}

pub struct TermMatchesView {
    pub documents: nat,
    pub matches: Seq<PostingView>,
}

impl View for TermMatches {
    type V = TermMatchesView;

    open spec fn view(&self) -> TermMatchesView {
        TermMatchesView { documents: self.documents as nat, matches: posting_views(self.matches@) }
    }
}

pub open spec fn match_views(list: Seq<TermMatches>) -> Seq<TermMatchesView> {
    list.map_values(|m: TermMatches| m@)
}

pub open spec fn passes(eligible: Option<Set<Seq<char>>>, id: Seq<char>) -> bool {
    eligible is Some ==> eligible->0.contains(id)
}

/// The rows of the first `n` IDs that pass.
pub open spec fn passing_rows(
    rows: Map<Seq<char>, PostingView>,
    eligible: Option<Set<Seq<char>>>,
    n: nat,
) -> Seq<PostingView>
    decreases n,
{
    if n == 0 {
        Seq::empty()
    } else {
        let front = passing_rows(rows, eligible, (n - 1) as nat);
        let id = ordered(rows.dom())[n - 1];
        if passes(eligible, id) {
            front.push(rows[id])
        } else {
            front
        }
    }
}

pub open spec fn term_matches_of(
    rows: Map<Seq<char>, PostingView>,
    eligible: Option<Set<Seq<char>>>,
) -> TermMatchesView {
    TermMatchesView {
        documents: rows.dom().len(),
        matches: passing_rows(rows, eligible, rows.dom().len()),
    }
}

fn passing(rows: &TextMap<Posting>, eligible: &Option<TextMap<()>>) -> (result: TermMatches)
    ensures
        result@ == term_matches_of(posting_map(rows@), id_set(*eligible)),
{
    let count = rows.len();
    let ghost names = rows.keys();
    let ghost view = posting_map(rows@);
    proof {
        assert(view.dom() =~= rows@.dom());
        lemma_ordered(names, rows@.dom());
    }
    let mut matches: Vec<Posting> = Vec::new();
    let mut i: usize = 0;
    assert(posting_views(matches@) =~= passing_rows(view, id_set(*eligible), 0));
    while i < count
        invariant
            i <= count,
            count == names.len(),
            names == rows.keys(),
            view == posting_map(rows@),
            names == ordered(view.dom()),
            posting_views(matches@) == passing_rows(view, id_set(*eligible), i as nat),
        decreases count - i,
    {
        let id = rows.key(i);
        let row = rows.value(i);
        let passed = match eligible {
            Some(ids) => ids.contains(id.as_str()),
            None => true,
        };
        if passed {
            let ghost before = posting_views(matches@);
            let posting = row.copy();
            let ghost added = posting@;
            matches.push(posting);
            assert(posting_views(matches@) =~= before.push(added));
            assert(view[id@] == added);
        }
        i += 1;
    }
    TermMatches { documents: count, matches }
}

/// The matches of every term, in term order.
pub open spec fn all_matches(gathered: Gathered) -> Seq<TermMatchesView> {
    let terms = ordered(gathered.postings.dom());
    Seq::new(
        terms.len(),
        |i: int| term_matches_of(gathered.postings[terms[i]], gathered.eligible),
    )
}

impl TextSearch {
    /// What the documents are scored by.
    pub fn term_matches(&self) -> (list: Vec<TermMatches>)
        ensures
            match_views(list@) == all_matches(self@),
    {
        let count = self.postings.len();
        let ghost names = self.postings.keys();
        let ghost target = all_matches(self@);
        proof {
            assert(self@.postings.dom() =~= self.postings@.dom());
            lemma_ordered(names, self.postings@.dom());
        }
        let mut list: Vec<TermMatches> = Vec::new();
        let mut i: usize = 0;
        assert(match_views(list@) =~= target.take(0));
        while i < count
            invariant
                i <= count,
                count == names.len(),
                names == self.postings.keys(),
                names == ordered(self@.postings.dom()),
                target == all_matches(self@),
                match_views(list@) == target.take(i as int),
            decreases count - i,
        {
            let rows = self.postings.value(i);
            let one = passing(rows, &self.eligible);
            let ghost before = match_views(list@);
            let ghost added = one@;
            list.push(one);
            proof {
                assert(match_views(list@) =~= before.push(added));
                assert(self@.postings[names[i as int]] == posting_map(rows@));
                assert(target.take(i + 1) =~= target.take(i as int).push(target[i as int]));
            }
            i += 1;
        }
        assert(target.take(i as int) =~= target);
        list
    }
}

pub open spec fn text_plan(indexed: bool) -> Seq<char> {
    if indexed {
        "bm25_index"@
    } else {
        "bm25_scan"@
    }
}

/// The answer to a text query. An indexed search looked at the scored documents,
/// a scan at all of them.
pub fn text_result(
    best: Vec<Ranked>,
    attributes: Vec<Option<TextMap<Json>>>,
    indexed: bool,
    looked_at: usize,
    scored: usize,
    revision: u64,
    indexed_revision: u64,
) -> (result: Result<QueryResult>)
    requires
        attributes@.len() == best@.len(),
    ensures
        match result {
            Ok(answer) => {
                &&& all_present(attributes@, attributes@.len())
                &&& matches_hits(answer.matches@, hits(best@), attributes@)
                &&& answer.scanned_documents == if indexed {
                    scored
                } else {
                    looked_at
                }
                &&& answer.plan@ == text_plan(indexed)
                &&& answer.revision == revision
                &&& answer.indexed_revision == if indexed {
                    indexed_revision
                } else {
                    0
                }
            },
            Err(e) => !all_present(attributes@, attributes@.len()) && e@ == ErrorView::Corrupt(
                "index references a missing document"@,
            ),
        },
{
    let plan = if indexed {
        "bm25_index".to_string()
    } else {
        "bm25_scan".to_string()
    };
    let scanned_documents: usize = if indexed {
        scored
    } else {
        looked_at
    };
    let indexed_revision: u64 = if indexed {
        indexed_revision
    } else {
        0
    };
    match hydrate(best, attributes) {
        Ok(matches) => Ok(
            QueryResult { matches, scanned_documents, plan, revision, indexed_revision },
        ),
        Err(e) => Err(e),
    }
}

// ---------------------------------------------------------------------------
// Scans and indexes agree
// ---------------------------------------------------------------------------
/// How many documents have the field as text.
pub open spec fn documents_with(documents: Documents, field: Seq<char>) -> int
    decreases documents.dom().len(),
    when documents.dom().finite()
{
    if documents.dom().len() == 0 {
        0
    } else {
        let id = documents.dom().choose();
        text_count(field_text(documents[id], field)) + documents_with(documents.remove(id), field)
    }
}

/// How many tokens the field has in all documents.
pub open spec fn tokens_with(documents: Documents, field: Seq<char>) -> int
    decreases documents.dom().len(),
    when documents.dom().finite()
{
    if documents.dom().len() == 0 {
        0
    } else {
        let id = documents.dom().choose();
        text_tokens(field_text(documents[id], field)) + tokens_with(documents.remove(id), field)
    }
}

pub proof fn lemma_sums_remove(documents: Documents, field: Seq<char>, id: Seq<char>)
    requires
        documents.dom().finite(),
        documents.contains_key(id),
    ensures
        documents_with(documents, field) == text_count(field_text(documents[id], field))
            + documents_with(documents.remove(id), field),
        tokens_with(documents, field) == text_tokens(field_text(documents[id], field))
            + tokens_with(documents.remove(id), field),
    decreases documents.dom().len(),
{
    let c = documents.dom().choose();
    assert(documents.dom().contains(id));
    if c != id {
        assert(documents.dom().contains(c));
        let without = documents.remove(c);
        lemma_sums_remove(without, field, id);
        let other = documents.remove(id);
        lemma_sums_remove(other, field, c);
        assert(without.remove(id) =~= other.remove(c));
    }
}

pub proof fn lemma_sums_insert(
    documents: Documents,
    field: Seq<char>,
    id: Seq<char>,
    attributes: Map<Seq<char>, Json>,
)
    requires
        documents.dom().finite(),
        !documents.contains_key(id),
    ensures
        documents_with(documents.insert(id, attributes), field) == documents_with(documents, field)
            + text_count(field_text(attributes, field)),
        tokens_with(documents.insert(id, attributes), field) == tokens_with(documents, field)
            + text_tokens(field_text(attributes, field)),
        documents.insert(id, attributes).dom().finite(),
{
    let after = documents.insert(id, attributes);
    assert(after.dom() =~= documents.dom().insert(id));
    lemma_sums_remove(after, field, id);
    assert(after.remove(id) =~= documents);
}

/// The postings of a term in the current documents.
pub open spec fn current_rows(documents: Documents, field: Seq<char>, term: Seq<char>) -> Map<
    Seq<char>,
    PostingView,
> {
    Map::new(
        |id: Seq<char>|
            documents.contains_key(id) && has_term(field_text(documents[id], field), term),
        |id: Seq<char>| text_posting(id, field_text(documents[id], field)->0, term),
    )
}

pub open spec fn current_postings(documents: Documents, field: Seq<char>, terms: Set<Seq<char>>) -> Map<
    Seq<char>,
    Map<Seq<char>, PostingView>,
> {
    Map::new(
        |t: Seq<char>| terms.contains(t),
        |t: Seq<char>| current_rows(documents, field, t),
    )
}

/// The documents that pass the filter; nothing is restricted without one.
pub open spec fn current_eligible(documents: Documents, filter: Filter) -> Option<Set<Seq<char>>> {
    if filter.unrestricted() {
        None
    } else {
        Some(
            Set::new(
                |id: Seq<char>| documents.contains_key(id) && filter.accepts(documents[id]),
            ),
        )
    }
}

/// What a search over exactly these documents gathers.
pub open spec fn current(
    documents: Documents,
    field: Seq<char>,
    terms: Set<Seq<char>>,
    filter: Filter,
) -> Gathered {
    Gathered {
        documents: documents_with(documents, field),
        tokens: tokens_with(documents, field),
        postings: current_postings(documents, field, terms),
        eligible: current_eligible(documents, filter),
    }
}

proof fn lemma_add_postings(
    base: Gathered,
    documents: Documents,
    field: Seq<char>,
    terms: Set<Seq<char>>,
    filter: Filter,
    id: Seq<char>,
    attributes: Map<Seq<char>, Json>,
)
    requires
        !documents.contains_key(id),
        base.postings == current_postings(documents, field, terms),
        base.eligible == current_eligible(documents, filter),
    ensures
        base.with_document(field, filter, id, attributes).postings == current_postings(
            documents.insert(id, attributes),
            field,
            terms,
        ),
        base.with_document(field, filter, id, attributes).eligible == current_eligible(
            documents.insert(id, attributes),
            filter,
        ),
{
    let after = documents.insert(id, attributes);
    let added = base.with_document(field, filter, id, attributes);
    let target = current_postings(after, field, terms);
    assert forall|t: Seq<char>| terms.contains(t) implies #[trigger] added.postings[t] == target[t] by {
        assert(base.postings.contains_key(t));
        assert(added.postings[t] =~= target[t]);
    }
    assert(added.postings =~= target);
    if !filter.unrestricted() {
        assert(added.eligible->0 =~= current_eligible(after, filter)->0);
    }
}

/// A document with its ID.
pub struct Listed {
    pub id: Seq<char>,
    pub attributes: Map<Seq<char>, Json>,
}

/// The documents of a listing, by ID.
pub open spec fn by_id(listing: Seq<Listed>, n: nat) -> Documents
    decreases n,
{
    if n == 0 {
        Map::empty()
    } else {
        by_id(listing, (n - 1) as nat).insert(listing[n - 1].id, listing[n - 1].attributes)
    }
}

/// What a scan gathers from the first `n` documents of a listing.
pub open spec fn scanned(
    listing: Seq<Listed>,
    field: Seq<char>,
    terms: Set<Seq<char>>,
    filter: Filter,
    n: nat,
) -> Gathered
    decreases n,
{
    if n == 0 {
        Gathered {
            documents: 0,
            tokens: 0,
            postings: no_postings(terms),
            eligible: if filter.unrestricted() {
                None
            } else {
                Some(Set::empty())
            },
        }
    } else {
        scanned(listing, field, terms, filter, (n - 1) as nat).with_document(
            field,
            filter,
            listing[n - 1].id,
            listing[n - 1].attributes,
        )
    }
}

proof fn lemma_by_id(listing: Seq<Listed>, n: nat, id: Seq<char>)
    requires
        n <= listing.len(),
    ensures
        by_id(listing, n).contains_key(id) <==> exists|i: int|
            0 <= i < n && (#[trigger] listing[i]).id == id,
        by_id(listing, n).dom().finite(),
    decreases n,
{
    if n > 0 {
        lemma_by_id(listing, (n - 1) as nat, id);
        assert(by_id(listing, n).dom() =~= by_id(listing, (n - 1) as nat).dom().insert(
            listing[n - 1].id,
        ));
    }
}

/// Before the first index, a scan of the documents gathers exactly the
/// statistics, postings and filter matches of the current documents.
pub proof fn law_scan_gathers_current(
    listing: Seq<Listed>,
    field: Seq<char>,
    terms: Set<Seq<char>>,
    filter: Filter,
    n: nat,
)
    requires
        n <= listing.len(),
        forall|i: int, j: int| 0 <= i < j < listing.len() ==> listing[i].id != listing[j].id,
    ensures
        scanned(listing, field, terms, filter, n) == current(
            by_id(listing, n),
            field,
            terms,
            filter,
        ),
    decreases n,
{
    if n == 0 {
        let none = by_id(listing, 0);
        let target = current(none, field, terms, filter);
        assert(none.dom() =~= Set::<Seq<char>>::empty());
        assert forall|t: Seq<char>| terms.contains(t) implies #[trigger] no_postings(terms)[t]
            == target.postings[t] by {
            assert(no_postings(terms)[t] =~= target.postings[t]);
        }
        assert(no_postings(terms) =~= target.postings);
        if !filter.unrestricted() {
            assert(Set::<Seq<char>>::empty() =~= target.eligible->0);
        }
    } else {
        let m = (n - 1) as nat;
        law_scan_gathers_current(listing, field, terms, filter, m);
        let before = by_id(listing, m);
        let id = listing[n - 1].id;
        lemma_by_id(listing, m, id);
        assert(!before.contains_key(id)) by {
            if before.contains_key(id) {
                let i = choose|i: int| 0 <= i < m && (#[trigger] listing[i]).id == id;
                assert(listing[i].id != listing[n - 1].id);
            }
        }
        lemma_sums_insert(before, field, id, listing[n - 1].attributes);
        lemma_add_postings(
            scanned(listing, field, terms, filter, m),
            before,
            field,
            terms,
            filter,
            id,
            listing[n - 1].attributes,
        );
    }
}

/// Documents that are not among the changed ones are as they were when the
/// index was built.
pub open spec fn in_sync(live: Documents, built: Documents, dirty: Set<Seq<char>>) -> bool {
    forall|id: Seq<char>|
        !dirty.contains(id) ==> (#[trigger] live.contains_key(id)) == built.contains_key(id) && (
        live.contains_key(id) ==> live[id] == built[id])
}

pub open spec fn built_text(built: Documents, field: Seq<char>, id: Seq<char>) -> Option<Seq<char>> {
    if built.contains_key(id) {
        field_text(built[id], field)
    } else {
        None
    }
}

/// What an index gives before the changes are laid over it: its statistics, its
/// postings without those of changed documents, and the IDs that it lists for
/// the filter without the changed ones.
pub open spec fn index_base(
    built: Documents,
    dirty: Set<Seq<char>>,
    field: Seq<char>,
    terms: Set<Seq<char>>,
    filter: Filter,
) -> Gathered {
    let kept = built.remove_keys(dirty);
    Gathered {
        documents: documents_with(built, field),
        tokens: tokens_with(built, field),
        postings: current_postings(kept, field, terms),
        eligible: current_eligible(kept, filter),
    }
}

/// The first `n` changed documents are laid over an index: each loses the text
/// that the index counted, and its current state, if any, is added.
pub open spec fn overlaid(
    live: Documents,
    built: Documents,
    dirty: Seq<Seq<char>>,
    field: Seq<char>,
    terms: Set<Seq<char>>,
    filter: Filter,
    n: nat,
) -> Gathered
    decreases n,
{
    if n == 0 {
        index_base(built, dirty.to_set(), field, terms, filter)
    } else {
        let id = dirty[n - 1];
        let front = overlaid(live, built, dirty, field, terms, filter, (n - 1) as nat).without_text(
            built_text(built, field, id),
        );
        if live.contains_key(id) {
            front.with_document(field, filter, id, live[id])
        } else {
            front
        }
    }
}

/// The built documents with the first `n` changed ones replaced by their current
/// state: what the statistics describe after `n` steps.
spec fn replaced(live: Documents, built: Documents, dirty: Seq<Seq<char>>, n: nat) -> Documents
    decreases n,
{
    if n == 0 {
        built
    } else {
        let front = replaced(live, built, dirty, (n - 1) as nat);
        if live.contains_key(dirty[n - 1]) {
            front.insert(dirty[n - 1], live[dirty[n - 1]])
        } else {
            front.remove(dirty[n - 1])
        }
    }
}

/// The unchanged documents and the first `n` changed ones in their current
/// state: what the postings describe after `n` steps.
spec fn accumulated(live: Documents, built: Documents, dirty: Seq<Seq<char>>, n: nat) -> Documents
    decreases n,
{
    if n == 0 {
        built.remove_keys(dirty.to_set())
    } else {
        let front = accumulated(live, built, dirty, (n - 1) as nat);
        if live.contains_key(dirty[n - 1]) {
            front.insert(dirty[n - 1], live[dirty[n - 1]])
        } else {
            front
        }
    }
}

proof fn lemma_replaced(
    live: Documents,
    built: Documents,
    dirty: Seq<Seq<char>>,
    n: nat,
    id: Seq<char>,
)
    requires
        n <= dirty.len(),
        dirty.no_duplicates(),
        built.dom().finite(),
    ensures
        replaced(live, built, dirty, n).dom().finite(),
        ({
            let seen = dirty.take(n as int).contains(id);
            let r = replaced(live, built, dirty, n);
            let a = accumulated(live, built, dirty, n);
            &&& seen ==> r.contains_key(id) == live.contains_key(id) && a.contains_key(id)
                == live.contains_key(id) && (live.contains_key(id) ==> r[id] == live[id] && a[id]
                == live[id])
            &&& !seen ==> r.contains_key(id) == built.contains_key(id) && (built.contains_key(id)
                ==> r[id] == built[id])
            &&& !seen ==> a.contains_key(id) == (built.contains_key(id) && !dirty.contains(id)) && (
            a.contains_key(id) ==> a[id] == built[id])
        }),
    decreases n,
{
    if n > 0 {
        let m = (n - 1) as nat;
        lemma_replaced(live, built, dirty, m, id);
        assert(dirty.take(n as int) =~= dirty.take(m as int).push(dirty[n - 1]));
        crate::search::lemma_push_contains(dirty.take(m as int), dirty[n - 1], id);
    } else {
        assert(!dirty.take(0).contains(id));
    }
}

proof fn lemma_overlay(
    live: Documents,
    built: Documents,
    dirty: Seq<Seq<char>>,
    field: Seq<char>,
    terms: Set<Seq<char>>,
    filter: Filter,
    n: nat,
)
    requires
        n <= dirty.len(),
        dirty.no_duplicates(),
        built.dom().finite(),
    ensures
        ({
            let state = overlaid(live, built, dirty, field, terms, filter, n);
            let r = replaced(live, built, dirty, n);
            let a = accumulated(live, built, dirty, n);
            &&& state.documents == documents_with(r, field)
            &&& state.tokens == tokens_with(r, field)
            &&& state.postings == current_postings(a, field, terms)
            &&& state.eligible == current_eligible(a, filter)
        }),
    decreases n,
{
    if n > 0 {
        let m = (n - 1) as nat;
        let id = dirty[n - 1];
        lemma_overlay(live, built, dirty, field, terms, filter, m);
        lemma_replaced(live, built, dirty, m, id);
        assert(!dirty.take(m as int).contains(id)) by {
            if dirty.take(m as int).contains(id) {
                let k = choose|k: int| 0 <= k < m && dirty.take(m as int)[k] == id;
                assert(dirty[k] == dirty[n - 1]);
            }
        }
        let r = replaced(live, built, dirty, m);
        let a = accumulated(live, built, dirty, m);
        let before = overlaid(live, built, dirty, field, terms, filter, m);
        let front = before.without_text(built_text(built, field, id));
        assert(dirty.contains(dirty[n - 1]));
        let bare = r.remove(id);
        if r.contains_key(id) {
            lemma_sums_remove(r, field, id);
        } else {
            assert(bare =~= r);
        }
        assert(front.documents == documents_with(bare, field));
        assert(front.tokens == tokens_with(bare, field));
        if live.contains_key(id) {
            lemma_sums_insert(bare, field, id, live[id]);
            assert(bare.insert(id, live[id]) =~= r.insert(id, live[id]));
            lemma_add_postings(front, a, field, terms, filter, id, live[id]);
        }
    }
}

/// While an index lags, laying the pending changes over it gathers exactly the
/// statistics, postings and filter matches of the current documents: the same
/// as a scan, and the same as an index rebuilt from them.
pub proof fn law_overlay_gathers_current(
    live: Documents,
    built: Documents,
    dirty: Seq<Seq<char>>,
    field: Seq<char>,
    terms: Set<Seq<char>>,
    filter: Filter,
)
    requires
        built.dom().finite(),
        live.dom().finite(),
        dirty.no_duplicates(),
        in_sync(live, built, dirty.to_set()),
    ensures
        overlaid(live, built, dirty, field, terms, filter, dirty.len()) == current(
            live,
            field,
            terms,
            filter,
        ),
{
    let n = dirty.len();
    lemma_overlay(live, built, dirty, field, terms, filter, n);
    let r = replaced(live, built, dirty, n);
    let a = accumulated(live, built, dirty, n);
    assert(dirty.take(n as int) =~= dirty);
    assert forall|id: Seq<char>|
        #![trigger r.dom().contains(id)]
        #![trigger a.dom().contains(id)]
        live.dom().contains(id) == r.dom().contains(id) && live.dom().contains(id)
            == a.dom().contains(id) && (live.dom().contains(id) ==> r[id] == live[id] && a[id]
            == live[id]) by {
        lemma_replaced(live, built, dirty, n, id);
        assert(dirty.contains(id) == dirty.to_set().contains(id));
        assert(live.contains_key(id) == live.dom().contains(id));
    }
    assert(r.dom() =~= live.dom());
    assert(a.dom() =~= live.dom());
    assert(r =~= live);
    assert(a =~= live);
}

proof fn lemma_sums_nonnegative(documents: Documents, field: Seq<char>)
    requires
        documents.dom().finite(),
    ensures
        documents_with(documents, field) >= 0,
        tokens_with(documents, field) >= 0,
    decreases documents.dom().len(),
{
    if documents.dom().len() > 0 {
        let id = documents.dom().choose();
        lemma_sums_nonnegative(documents.remove(id), field);
    }
}

/// The statistics never run out: before a changed document is laid over an index,
/// they still count the text that the index has of it.
pub proof fn law_overlay_has_text(
    live: Documents,
    built: Documents,
    dirty: Seq<Seq<char>>,
    field: Seq<char>,
    terms: Set<Seq<char>>,
    filter: Filter,
    n: nat,
)
    requires
        n < dirty.len(),
        dirty.no_duplicates(),
        built.dom().finite(),
    ensures
        ({
            let before = overlaid(live, built, dirty, field, terms, filter, n);
            let text = built_text(built, field, dirty[n as int]);
            before.documents >= text_count(text) && before.tokens >= text_tokens(text)
        }),
{
    let id = dirty[n as int];
    let r = replaced(live, built, dirty, n);
    lemma_overlay(live, built, dirty, field, terms, filter, n);
    lemma_replaced(live, built, dirty, n, id);
    assert(!dirty.take(n as int).contains(id)) by {
        if dirty.take(n as int).contains(id) {
            let k = choose|k: int| 0 <= k < n && dirty.take(n as int)[k] == id;
            assert(dirty[k] == dirty[n as int]);
        }
    }
    if built.contains_key(id) {
        lemma_sums_remove(r, field, id);
        lemma_sums_nonnegative(r.remove(id), field);
    } else {
        lemma_sums_nonnegative(r, field);
    }
}

// ---------------------------------------------------------------------------
// Filters and repeated terms
// ---------------------------------------------------------------------------
proof fn lemma_passing_rows(
    rows: Map<Seq<char>, PostingView>,
    eligible: Option<Set<Seq<char>>>,
    n: nat,
    row: PostingView,
)
    requires
        n <= ordered(rows.dom()).len(),
    ensures
        passing_rows(rows, eligible, n).contains(row) <==> exists|i: int|
            0 <= i < n && #[trigger] rows[ordered(rows.dom())[i]] == row && passes(
                eligible,
                ordered(rows.dom())[i],
            ),
    decreases n,
{
    let ids = ordered(rows.dom());
    if n > 0 {
        let m = (n - 1) as nat;
        lemma_passing_rows(rows, eligible, m, row);
        let front = passing_rows(rows, eligible, m);
        let list = passing_rows(rows, eligible, n);
        if list.contains(row) {
            let k = choose|k: int| 0 <= k < list.len() && list[k] == row;
            if k < front.len() {
                assert(front[k] == row);
                assert(front.contains(row));
            } else {
                assert(rows[ids[m as int]] == row);
            }
        }
        if front.contains(row) {
            let k = choose|k: int| 0 <= k < front.len() && front[k] == row;
            assert(list[k] == row);
        }
        if passes(eligible, ids[m as int]) {
            assert(list[front.len() as int] == rows[ids[m as int]]);
        }
    }
}

proof fn lemma_term_filtered(
    documents: Documents,
    field: Seq<char>,
    term: Seq<char>,
    filter: Filter,
    open: Filter,
    row: PostingView,
)
    requires
        documents.dom().finite(),
        open.unrestricted(),
    ensures
        ({
            let rows = current_rows(documents, field, term);
            let some = term_matches_of(rows, current_eligible(documents, filter));
            let every = term_matches_of(rows, current_eligible(documents, open));
            &&& some.documents == every.documents
            &&& some.matches.contains(row) <==> every.matches.contains(row) && filter.accepts(
                documents[row.id],
            )
        }),
{
    let rows = current_rows(documents, field, term);
    let ids = ordered(rows.dom());
    assert(rows.dom().subset_of(documents.dom()));
    vstd::set_lib::lemma_len_subset(rows.dom(), documents.dom());
    lemma_ordered_exists(rows.dom());
    let chosen = current_eligible(documents, filter);
    lemma_passing_rows(rows, chosen, rows.dom().len(), row);
    lemma_passing_rows(rows, None, rows.dom().len(), row);
    assert forall|i: int| 0 <= i < ids.len() implies {
        &&& documents.contains_key(#[trigger] ids[i])
        &&& rows[ids[i]].id == ids[i]
        &&& passes(chosen, ids[i]) == filter.accepts(documents[ids[i]])
    } by {
        assert(ids.to_set().contains(ids[i]));
        assert(rows.contains_key(ids[i]));
    }
}

/// A filter restricts the matches of a query to the documents that satisfy it.
/// It changes neither the statistics of the field nor the number of documents
/// that a term is counted in.
pub proof fn law_filter_keeps_statistics(
    documents: Documents,
    field: Seq<char>,
    terms: Set<Seq<char>>,
    filter: Filter,
    open: Filter,
)
    requires
        documents.dom().finite(),
        terms.finite(),
        open.unrestricted(),
    ensures
        ({
            let filtered = current(documents, field, terms, filter);
            let whole = current(documents, field, terms, open);
            let some = all_matches(filtered);
            let every = all_matches(whole);
            &&& filtered.documents == whole.documents
            &&& filtered.tokens == whole.tokens
            &&& some.len() == every.len()
            &&& forall|i: int|
                0 <= i < some.len() ==> (#[trigger] some[i]).documents == every[i].documents
            &&& forall|i: int, row: PostingView|
                0 <= i < some.len() ==> (#[trigger] some[i].matches.contains(row)
                    <==> every[i].matches.contains(row) && filter.accepts(documents[row.id]))
        }),
{
    let filtered = current(documents, field, terms, filter);
    let whole = current(documents, field, terms, open);
    let some = all_matches(filtered);
    let every = all_matches(whole);
    let names = ordered(filtered.postings.dom());
    assert(filtered.postings.dom() =~= terms);
    lemma_ordered_exists(terms);
    assert forall|i: int, row: PostingView| 0 <= i < some.len() implies some[i].documents
        == every[i].documents && (#[trigger] some[i].matches.contains(row)
        <==> every[i].matches.contains(row) && filter.accepts(documents[row.id])) by {
        assert(names.to_set().contains(names[i]));
        assert(filtered.postings[names[i]] == current_rows(documents, field, names[i]));
        lemma_term_filtered(documents, field, names[i], filter, open, row);
    }
    assert forall|i: int| 0 <= i < some.len() implies (#[trigger] some[i]).documents
        == every[i].documents by {
        let row = PostingView { id: Seq::empty(), frequency: 0, length: 0 };
        assert(some[i].matches.contains(row) || !some[i].matches.contains(row));
    }
}

/// How a document is scored: by the statistics of the field, the number of
/// documents that each term is counted in, and the document's posting of each
/// term, if it has one.
pub type TextScore = spec_fn(int, int, Seq<nat>, Seq<Option<PostingView>>) -> u64;

/// A document has a posting among the matches of a term.
pub open spec fn is_matched(matches: Seq<PostingView>, id: Seq<char>) -> bool {
    exists|i: int| 0 <= i < matches.len() && (#[trigger] matches[i]).id == id
}

pub open spec fn posting_for(matches: Seq<PostingView>, id: Seq<char>) -> Option<PostingView> {
    if is_matched(matches, id) {
        let at = choose|i: int| 0 <= i < matches.len() && (#[trigger] matches[i]).id == id;
        Some(matches[at])
    } else {
        None
    }
}

/// The documents that match some term.
pub open spec fn matched_ids(list: Seq<TermMatchesView>) -> Set<Seq<char>> {
    Set::new(
        |id: Seq<char>|
            exists|t: int| 0 <= t < list.len() && is_matched((#[trigger] list[t]).matches, id),
    )
}

pub open spec fn term_counts(list: Seq<TermMatchesView>) -> Seq<nat> {
    list.map_values(|term: TermMatchesView| term.documents)
}

/// The posting of each term that a document has.
pub open spec fn postings_for(list: Seq<TermMatchesView>, id: Seq<char>) -> Seq<
    Option<PostingView>,
> {
    list.map_values(|term: TermMatchesView| posting_for(term.matches, id))
}

pub open spec fn text_hit(gathered: Gathered, score: TextScore, id: Seq<char>) -> Hit {
    let list = all_matches(gathered);
    Hit {
        id,
        score: score(
            gathered.documents,
            gathered.tokens,
            term_counts(list),
            postings_for(list, id),
        ),
    }
}

/// The matching documents in ascending order, with their scores.
pub open spec fn text_hits(gathered: Gathered, score: TextScore) -> Seq<Hit> {
    ordered(matched_ids(all_matches(gathered))).map_values(
        |id: Seq<char>| text_hit(gathered, score, id),
    )
}

/// A match of a term is the posting of a document that has the term.
proof fn lemma_match_row(
    documents: Documents,
    field: Seq<char>,
    terms: Set<Seq<char>>,
    filter: Filter,
    t: int,
    row: PostingView,
)
    requires
        documents.dom().finite(),
        terms.finite(),
        0 <= t < terms.len(),
        all_matches(current(documents, field, terms, filter))[t].matches.contains(row),
    ensures
        documents.contains_key(row.id),
        row == current_rows(documents, field, ordered(terms)[t])[row.id],
{
    let gathered = current(documents, field, terms, filter);
    let names = ordered(terms);
    assert(gathered.postings.dom() =~= terms);
    lemma_ordered_exists(terms);
    assert(names.to_set().contains(names[t]));
    let rows = current_rows(documents, field, names[t]);
    assert(gathered.postings[names[t]] == rows);
    let ids = ordered(rows.dom());
    assert(rows.dom().subset_of(documents.dom()));
    vstd::set_lib::lemma_len_subset(rows.dom(), documents.dom());
    lemma_ordered_exists(rows.dom());
    lemma_passing_rows(rows, gathered.eligible, rows.dom().len(), row);
    let i = choose|i: int|
        0 <= i < rows.dom().len() && #[trigger] rows[ids[i]] == row && passes(
            gathered.eligible,
            ids[i],
        );
    assert(ids.to_set().contains(ids[i]));
    assert(rows.contains_key(ids[i]));
}

/// Who matches a term under a filter, and with which posting.
proof fn lemma_posting_filtered(
    documents: Documents,
    field: Seq<char>,
    terms: Set<Seq<char>>,
    filter: Filter,
    open: Filter,
    t: int,
    id: Seq<char>,
)
    requires
        documents.dom().finite(),
        terms.finite(),
        open.unrestricted(),
        0 <= t < terms.len(),
    ensures
        ({
            let some = all_matches(current(documents, field, terms, filter))[t].matches;
            let every = all_matches(current(documents, field, terms, open))[t].matches;
            &&& is_matched(some, id) <==> is_matched(every, id) && filter.accepts(documents[id])
            &&& filter.accepts(documents[id]) ==> posting_for(some, id) == posting_for(every, id)
            &&& is_matched(every, id) ==> documents.contains_key(id)
        }),
{
    let filtered = all_matches(current(documents, field, terms, filter));
    let whole = all_matches(current(documents, field, terms, open));
    let some = filtered[t].matches;
    let every = whole[t].matches;
    law_filter_keeps_statistics(documents, field, terms, filter, open);
    assert(current(documents, field, terms, filter).postings.dom() =~= terms);
    lemma_ordered_exists(terms);
    if is_matched(some, id) {
        let i = choose|i: int| 0 <= i < some.len() && (#[trigger] some[i]).id == id;
        let row = some[i];
        assert(filtered[t].matches.contains(row));
        assert(posting_for(some, id) == Some(row));
        lemma_match_row(documents, field, terms, filter, t, row);
        assert(every.contains(row));
        let j = choose|j: int| 0 <= j < every.len() && every[j] == row;
        assert(every[j].id == id);
    }
    if is_matched(every, id) {
        let i = choose|i: int| 0 <= i < every.len() && (#[trigger] every[i]).id == id;
        let row = every[i];
        assert(whole[t].matches.contains(row));
        assert(posting_for(every, id) == Some(row));
        lemma_match_row(documents, field, terms, open, t, row);
        if filter.accepts(documents[id]) {
            assert(filtered[t].matches.contains(row));
            let j = choose|j: int| 0 <= j < some.len() && some[j] == row;
            assert(some[j].id == id);
        }
    }
}

/// The documents that match under a filter, and their scores.
proof fn lemma_hits_filtered(
    documents: Documents,
    field: Seq<char>,
    terms: Set<Seq<char>>,
    filter: Filter,
    open: Filter,
    score: TextScore,
    id: Seq<char>,
)
    requires
        documents.dom().finite(),
        terms.finite(),
        open.unrestricted(),
    ensures
        ({
            let filtered = current(documents, field, terms, filter);
            let whole = current(documents, field, terms, open);
            let some = matched_ids(all_matches(filtered));
            let every = matched_ids(all_matches(whole));
            &&& some.contains(id) <==> every.contains(id) && filter.accepts(documents[id])
            &&& every.contains(id) ==> documents.contains_key(id)
            &&& some.contains(id) ==> text_hit(filtered, score, id) == text_hit(whole, score, id)
        }),
{
    let filtered = current(documents, field, terms, filter);
    let whole = current(documents, field, terms, open);
    let some = all_matches(filtered);
    let every = all_matches(whole);
    law_filter_keeps_statistics(documents, field, terms, filter, open);
    assert(filtered.postings.dom() =~= terms);
    assert(whole.postings.dom() =~= terms);
    lemma_ordered_exists(terms);
    assert forall|t: int| 0 <= t < some.len() implies (is_matched(
        (#[trigger] some[t]).matches,
        id,
    ) <==> is_matched(every[t].matches, id) && filter.accepts(documents[id])) && (filter.accepts(
        documents[id],
    ) ==> posting_for(some[t].matches, id) == posting_for(every[t].matches, id)) && (is_matched(
        every[t].matches,
        id,
    ) ==> documents.contains_key(id)) by {
        lemma_posting_filtered(documents, field, terms, filter, open, t, id);
    }
    if matched_ids(some).contains(id) {
        let t = choose|t: int| 0 <= t < some.len() && is_matched((#[trigger] some[t]).matches, id);
        assert(is_matched(every[t].matches, id));
        assert(term_counts(some) =~= term_counts(every));
        assert(postings_for(some, id) =~= postings_for(every, id));
    }
    if matched_ids(every).contains(id) {
        let t = choose|t: int|
            0 <= t < every.len() && is_matched((#[trigger] every[t]).matches, id);
        assert(some[t].documents == every[t].documents);
        assert(documents.contains_key(id));
    }
}

/// Matching documents are scored once each.
proof fn lemma_text_hits(gathered: Gathered, score: TextScore, hit: Hit)
    requires
        matched_ids(all_matches(gathered)).finite(),
    ensures
        text_hits(gathered, score).no_duplicates(),
        text_hits(gathered, score).contains(hit) <==> matched_ids(
            all_matches(gathered),
        ).contains(hit.id) && hit == text_hit(gathered, score, hit.id),
{
    let found = matched_ids(all_matches(gathered));
    let ids = ordered(found);
    let list = text_hits(gathered, score);
    lemma_ordered_exists(found);
    lemma_ascending_distinct(ids);
    assert forall|i: int, j: int|
        0 <= i < list.len() && 0 <= j < list.len() && i != j implies list[i] != list[j] by {
        assert(list[i].id == ids[i] && list[j].id == ids[j]);
    }
    assert(ids.to_set().contains(hit.id) == ids.contains(hit.id));
    if list.contains(hit) {
        let i = choose|i: int| 0 <= i < list.len() && list[i] == hit;
        assert(ids.contains(ids[i]));
    }
    if ids.contains(hit.id) && hit == text_hit(gathered, score, hit.id) {
        let i = choose|i: int| 0 <= i < ids.len() && ids[i] == hit.id;
        assert(list[i] == hit);
    }
}

/// The ranked answer to a query with a filter is the answer without it, restricted
/// to the documents that satisfy the filter: the same documents in the same
/// order with the same scores, however scores follow from the statistics of the
/// field, the document counts of the terms and a document's own postings. `all`
/// is enough for every hit of the query without the filter; the best `k` with
/// it are the first `k` of what is left.
pub proof fn law_filter_restricts_ranking(
    documents: Documents,
    field: Seq<char>,
    terms: Set<Seq<char>>,
    filter: Filter,
    open: Filter,
    score: TextScore,
    k: nat,
    all: nat,
)
    requires
        documents.dom().finite(),
        terms.finite(),
        open.unrestricted(),
        text_hits(current(documents, field, terms, open), score).len() <= all,
    ensures
        ({
            let some = text_hits(current(documents, field, terms, filter), score);
            let every = text_hits(current(documents, field, terms, open), score);
            let left = top_k(every, all).filter(|hit: Hit| filter.accepts(documents[hit.id]));
            &&& top_k(some, k) == first(left, k)
            &&& some.len() <= k ==> top_k(some, k) == left
            &&& forall|i: int|
                0 <= i < top_k(every, all).len() ==> documents.contains_key(
                    (#[trigger] top_k(every, all)[i]).id,
                )
        }),
{
    broadcast use vstd::seq_lib::group_to_multiset_ensures;

    let filtered = current(documents, field, terms, filter);
    let whole = current(documents, field, terms, open);
    let keep = |hit: Hit| filter.accepts(documents[hit.id]);
    let some = text_hits(filtered, score);
    let every = text_hits(whole, score);
    let some_ids = matched_ids(all_matches(filtered));
    let every_ids = matched_ids(all_matches(whole));
    assert forall|id: Seq<char>| every_ids.contains(id) implies documents.dom().contains(id) by {
        lemma_hits_filtered(documents, field, terms, filter, open, score, id);
    }
    vstd::set_lib::lemma_set_subset_finite(documents.dom(), every_ids);
    assert forall|id: Seq<char>| some_ids.contains(id) implies every_ids.contains(id) by {
        lemma_hits_filtered(documents, field, terms, filter, open, score, id);
    }
    vstd::set_lib::lemma_set_subset_finite(every_ids, some_ids);
    let none = Hit { id: Seq::empty(), score: 0 };
    lemma_text_hits(filtered, score, none);
    lemma_text_hits(whole, score, none);
    assert forall|hit: Hit| #[trigger] some.contains(hit) <==> every.contains(hit) && keep(hit) by {
        lemma_text_hits(filtered, score, hit);
        lemma_text_hits(whole, score, hit);
        lemma_hits_filtered(documents, field, terms, filter, open, score, hit.id);
    }
    law_ranking_restricts(some, every, keep);
    lemma_ranking(some);
    lemma_ranking(every);
    assert(top_k(every, all) == ranking(every));
    assert forall|i: int| 0 <= i < ranking(every).len() implies documents.contains_key(
        (#[trigger] ranking(every)[i]).id,
    ) by {
        let hit = ranking(every)[i];
        assert(ranking(every).contains(hit));
        assert(ranking(every).to_multiset().contains(hit));
        assert(every.contains(hit));
        lemma_text_hits(whole, score, hit);
        lemma_hits_filtered(documents, field, terms, filter, open, score, hit.id);
    }
}

/// Repeating a term in a query changes nothing: queries with the same terms are
/// admitted alike and gather the same.
pub proof fn law_repeated_terms_ignored(
    a: Seq<char>,
    b: Seq<char>,
    documents: Documents,
    field: Seq<char>,
    filter: Filter,
)
    requires
        forall|t: Seq<char>| #[trigger] tokens(a).contains(t) <==> tokens(b).contains(t),
    ensures
        query_terms_valid(a) == query_terms_valid(b),
        current(documents, field, terms_of(a).frequencies.dom(), filter) == current(
            documents,
            field,
            terms_of(b).frequencies.dom(),
            filter,
        ),
{
    assert(terms_of(a).frequencies.dom() =~= terms_of(b).frequencies.dom());
}

// ---------------------------------------------------------------------------
// What is counted
// ---------------------------------------------------------------------------
/// The documents that have the field as text.
pub open spec fn documents_having(documents: Documents, field: Seq<char>) -> Set<Seq<char>> {
    documents.dom().filter(
        |id: Seq<char>|
            documents[id].contains_key(field) && documents[id][field]@ is Text,
    )
}

/// The statistics of a field: how many documents have it as text, and how many
/// tokens they have in all. A document more adds its text, or nothing.
pub proof fn law_statistics_count_text(
    documents: Documents,
    field: Seq<char>,
    id: Seq<char>,
    attributes: Map<Seq<char>, Json>,
)
    requires
        documents.dom().finite(),
        !documents.contains_key(id),
    ensures
        documents_with(documents, field) == documents_having(documents, field).len(),
        tokens_with(Map::empty(), field) == 0,
        tokens_with(documents.insert(id, attributes), field) == tokens_with(documents, field) + if
            attributes.contains_key(field) && attributes[field]@ is Text {
            tokens(attributes[field]@->Text_0).len() as int
        } else {
            0
        },
{
    lemma_sums_insert(documents, field, id, attributes);
    assert(Map::<Seq<char>, Map<Seq<char>, Json>>::empty().dom() =~= Set::<Seq<char>>::empty());
    lemma_documents_having(documents, field);
}

proof fn lemma_documents_having(documents: Documents, field: Seq<char>)
    requires
        documents.dom().finite(),
    ensures
        documents_having(documents, field).finite(),
        documents_with(documents, field) == documents_having(documents, field).len(),
    decreases documents.dom().len(),
{
    let all = documents_having(documents, field);
    if documents.dom().len() == 0 {
        assert(all =~= Set::<Seq<char>>::empty());
    } else {
        let id = documents.dom().choose();
        let rest = documents.remove(id);
        lemma_documents_having(rest, field);
        let some = documents_having(rest, field);
        assert(documents.dom().contains(id));
        if field_text(documents[id], field) is Some {
            assert(all =~= some.insert(id));
        } else {
            assert(all =~= some);
        }
    }
}

/// The postings of a term: a document has one exactly if its text has the term
/// among its tokens. It says how often the term stands there, and how many tokens
/// there are.
pub proof fn law_postings_count_terms(
    documents: Documents,
    field: Seq<char>,
    term: Seq<char>,
    id: Seq<char>,
)
    ensures
        ({
            let rows = current_rows(documents, field, term);
            let text = documents[id][field]@->Text_0;
            &&& rows.contains_key(id) <==> documents.contains_key(id)
                && documents[id].contains_key(field) && documents[id][field]@ is Text && tokens(
                text,
            ).contains(term)
            &&& rows.contains_key(id) && tokens(text).len() <= u32::MAX ==> rows[id] == (
            PostingView {
                id,
                frequency: positions(tokens(text), term).len() as u32,
                length: tokens(text).len() as u32,
            }) && positions(tokens(text), term).len() <= u32::MAX
        }),
{
    let text = documents[id][field]@->Text_0;
    lemma_positions(tokens(text), term);
    crate::terms::lemma_occurrences(tokens(text), term);
}

/// The matches of a query, term by term in the order of the terms: how many
/// documents have the term, and of those that pass the filter the postings, by
/// ascending ID.
pub proof fn law_matches_of_terms(
    documents: Documents,
    field: Seq<char>,
    terms: Set<Seq<char>>,
    filter: Filter,
    t: int,
    id: Seq<char>,
)
    requires
        documents.dom().finite(),
        terms.finite(),
        0 <= t < terms.len(),
    ensures
        ({
            let list = all_matches(current(documents, field, terms, filter));
            let rows = current_rows(documents, field, ordered(terms)[t]);
            &&& list.len() == terms.len()
            &&& list[t].documents == rows.dom().len()
            &&& is_matched(list[t].matches, id) <==> rows.contains_key(id) && filter.accepts(
                documents[id],
            )
            &&& forall|i: int|
                0 <= i < list[t].matches.len() ==> (#[trigger] list[t].matches[i])
                    == rows[list[t].matches[i].id]
            &&& forall|i: int, j: int|
                #![trigger list[t].matches[i], list[t].matches[j]]
                0 <= i < j < list[t].matches.len() ==> text_lt(
                    list[t].matches[i].id,
                    list[t].matches[j].id,
                )
        }),
{
    let gathered = current(documents, field, terms, filter);
    let list = all_matches(gathered);
    let names = ordered(terms);
    assert(gathered.postings.dom() =~= terms);
    lemma_ordered_exists(terms);
    assert(names.to_set().contains(names[t]));
    let rows = current_rows(documents, field, names[t]);
    assert(gathered.postings[names[t]] == rows);
    let ids = ordered(rows.dom());
    let n = rows.dom().len();
    assert(rows.dom().subset_of(documents.dom()));
    vstd::set_lib::lemma_len_subset(rows.dom(), documents.dom());
    lemma_ordered_exists(rows.dom());
    let matches = list[t].matches;
    assert(matches == passing_rows(rows, gathered.eligible, n));
    assert forall|i: int| 0 <= i < ids.len() implies {
        &&& rows.contains_key(#[trigger] ids[i])
        &&& rows[ids[i]].id == ids[i]
        &&& passes(gathered.eligible, ids[i]) == filter.accepts(documents[ids[i]])
    } by {
        assert(ids.to_set().contains(ids[i]));
        assert(rows.dom().contains(ids[i]));
        law_filters_select(filter, documents[ids[i]]);
    }
    lemma_passing_order(rows, gathered.eligible, n);
    assert forall|i: int| 0 <= i < matches.len() implies (#[trigger] matches[i])
        == rows[matches[i].id] by {
        assert(matches.contains(matches[i]));
        lemma_passing_rows(rows, gathered.eligible, n, matches[i]);
    }
    if is_matched(matches, id) {
        let i = choose|i: int| 0 <= i < matches.len() && (#[trigger] matches[i]).id == id;
        assert(matches.contains(matches[i]));
        lemma_passing_rows(rows, gathered.eligible, n, matches[i]);
    }
    if rows.contains_key(id) && filter.accepts(documents[id]) {
        assert(ids.to_set().contains(id));
        let k = choose|k: int| 0 <= k < ids.len() && ids[k] == id;
        lemma_passing_rows(rows, gathered.eligible, n, rows[id]);
        assert(rows[ids[k]] == rows[id]);
        assert(matches.contains(rows[id]));
        let i = choose|i: int| 0 <= i < matches.len() && matches[i] == rows[id];
        assert(matches[i].id == id);
    }
}

proof fn lemma_passing_order(
    rows: Map<Seq<char>, PostingView>,
    eligible: Option<Set<Seq<char>>>,
    n: nat,
)
    requires
        n <= ordered(rows.dom()).len(),
        rows.dom().finite(),
        forall|i: int|
            0 <= i < ordered(rows.dom()).len() ==> rows[#[trigger] ordered(rows.dom())[i]].id
                == ordered(rows.dom())[i],
    ensures
        ({
            let list = passing_rows(rows, eligible, n);
            forall|i: int, j: int|
                #![trigger list[i], list[j]]
                0 <= i < j < list.len() ==> text_lt(list[i].id, list[j].id)
        }),
    decreases n,
{
    let ids = ordered(rows.dom());
    lemma_ordered_exists(rows.dom());
    if n > 0 {
        let m = (n - 1) as nat;
        lemma_passing_order(rows, eligible, m);
        let front = passing_rows(rows, eligible, m);
        let list = passing_rows(rows, eligible, n);
        assert forall|i: int, j: int|
            #![trigger list[i], list[j]]
            0 <= i < j < list.len() implies text_lt(list[i].id, list[j].id) by {
            assert(list[i] == front[i]);
            if j < front.len() {
                assert(list[j] == front[j]);
            } else {
                assert(front.contains(front[i]));
                lemma_passing_rows(rows, eligible, m, front[i]);
                let k = choose|k: int|
                    0 <= k < m && #[trigger] rows[ids[k]] == front[i] && passes(eligible, ids[k]);
                assert(rows[ids[m as int]].id == ids[m as int]);
                assert(text_lt(ids[k], ids[m as int]));
            }
        }
    }
}

/// A text query has 1 to 32 different tokens.
pub proof fn law_query_terms_bounded(text: Seq<char>)
    ensures
        query_terms_valid(text) <==> 1 <= tokens(text).to_set().len() && tokens(text).to_set().len()
            <= 32,
{
    assert(frequencies(tokens(text)).dom() =~= tokens(text).to_set());
}

/// The plan of a text query tells whether it used an index.
pub proof fn law_text_plan_names()
    ensures
        text_plan(true) == "bm25_index"@,
        text_plan(false) == "bm25_scan"@,
{
}

/// What an index counted for a document is the length of its terms of the field;
/// the statistics that it has of a field are those stored, or none.
pub proof fn law_counts_are_looked_up(
    counted: TextMap<Terms>,
    text: Map<Seq<char>, Corpus>,
    field: Seq<char>,
)
    ensures
        counted@.contains_key(field) ==> counted_length(Some(&counted), field) == Some(
            counted@[field].length,
        ),
        !counted@.contains_key(field) ==> counted_length(Some(&counted), field) is None,
        counted_length(None, field) is None,
        text.contains_key(field) ==> field_corpus(text, field) == text[field],
        !text.contains_key(field) ==> field_corpus(text, field).documents == 0 && field_corpus(
            text,
            field,
        ).tokens == 0,
{
}

/// What a search has gathered is in its fields.
pub proof fn law_gathered_shows_the_search(search: TextSearch, term: Seq<char>, id: Seq<char>)
    ensures
        search@.documents == search.corpus.documents,
        search@.tokens == search.corpus.tokens,
        search@.postings.contains_key(term) <==> search.postings@.contains_key(term),
        search.postings@.contains_key(term) ==> (search@.postings[term].contains_key(id)
            <==> search.postings@[term]@.contains_key(id)),
        search.postings@.contains_key(term) && search.postings@[term]@.contains_key(id) ==> {
            let posting = search.postings@[term]@[id];
            search@.postings[term][id] == (PostingView {
                id: posting.id@,
                frequency: posting.frequency,
                length: posting.length,
            })
        },
        search.eligible is None <==> search@.eligible is None,
        search.eligible is Some ==> search@.eligible->0 == search.eligible->0@.dom(),
{
}

/// The matches of terms show how many documents have the term, and the postings.
pub proof fn law_matches_show_their_fields(list: Seq<TermMatches>, i: int)
    requires
        0 <= i < list.len(),
    ensures
        match_views(list).len() == list.len(),
        match_views(list)[i].documents == list[i].documents,
        match_views(list)[i].matches == posting_views(list[i].matches@),
{
}

} // verus!
