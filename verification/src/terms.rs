//! Tokens of a text and how often each occurs.
use vstd::prelude::*;
use vstd::string::*;

use crate::json::{as_text_spec, Json, JsonView};
use crate::model::Document;
use crate::outside::{alphanumeric, lowercase};
use crate::text::views;
use crate::textmap::TextMap;

verus! {

/// The complete runs of alphanumeric characters in a text, lowercased, and the
/// run that the end of the text leaves open.
pub struct Scan {
    pub done: Seq<Seq<char>>,
    pub open: Seq<char>,
}

pub open spec fn close(scan: Scan) -> Seq<Seq<char>> {
    if scan.open.len() == 0 {
        scan.done
    } else {
        scan.done.push(lowercase(scan.open))
    }
}

pub open spec fn scan(text: Seq<char>) -> Scan
    decreases text.len(),
{
    if text.len() == 0 {
        Scan { done: Seq::empty(), open: Seq::empty() }
    } else {
        let front = scan(text.drop_last());
        if alphanumeric(text.last()) {
            Scan { done: front.done, open: front.open.push(text.last()) }
        } else {
            Scan { done: close(front), open: Seq::empty() }
        }
    }
}

/// The maximal runs of alphanumeric characters, lowercased, in order.
pub open spec fn tokens(text: Seq<char>) -> Seq<Seq<char>> {
    close(scan(text))
}

pub open spec fn occurrences(items: Seq<Seq<char>>, item: Seq<char>) -> nat
    decreases items.len(),
{
    if items.len() == 0 {
        0
    } else {
        occurrences(items.drop_last(), item) + if items.last() == item {
            1nat
        } else {
            0nat
        }
    }
}

pub proof fn lemma_occurrences(items: Seq<Seq<char>>, item: Seq<char>)
    ensures
        occurrences(items, item) <= items.len(),
        items.contains(item) <==> occurrences(items, item) > 0,
    decreases items.len(),
{
    if items.len() > 0 {
        let front = items.drop_last();
        lemma_occurrences(front, item);
        if items.contains(item) && items.last() != item {
            let i = choose|i: int| 0 <= i < items.len() && items[i] == item;
            assert(front[i] == item);
        }
        if front.contains(item) {
            let i = choose|i: int| 0 <= i < front.len() && front[i] == item;
            assert(items[i] == item);
        }
    }
}

proof fn lemma_scan_len(text: Seq<char>)
    ensures
        scan(text).done.len() + scan(text).open.len() <= text.len(),
    decreases text.len(),
{
    if text.len() > 0 {
        lemma_scan_len(text.drop_last());
    }
}

/// A text has at most as many tokens as characters.
pub proof fn lemma_token_count(text: Seq<char>)
    ensures
        tokens(text).len() <= text.len(),
{
    lemma_scan_len(text);
}

/// How many tokens a text has, and how often each distinct one occurs.
#[derive(Debug)]
pub struct Terms {
    pub length: u32,
    pub frequencies: TextMap<u32>,
}

pub struct TermsView {
    pub length: nat,
    pub frequencies: Map<Seq<char>, u32>,
}

impl View for Terms {
    type V = TermsView;

    open spec fn view(&self) -> TermsView {
        TermsView { length: self.length as nat, frequencies: self.frequencies@ }
    }
}

pub open spec fn frequencies(items: Seq<Seq<char>>) -> Map<Seq<char>, u32> {
    Map::new(|t: Seq<char>| items.contains(t), |t: Seq<char>| occurrences(items, t) as u32)
}

pub open spec fn terms_of(text: Seq<char>) -> TermsView {
    TermsView { length: tokens(text).len(), frequencies: frequencies(tokens(text)) }
}

fn add_token(frequencies_map: &mut TextMap<u32>, piece: &str, Ghost(done): Ghost<Seq<Seq<char>>>)
    requires
        old(frequencies_map)@ == frequencies(done),
        done.len() < u32::MAX,
    ensures
        final(frequencies_map)@ == frequencies(done.push(lowercase(piece@))),
{
    let token = piece.to_lowercase();
    let ghost after = done.push(token@);
    proof {
        assert(after.drop_last() =~= done);
        lemma_occurrences(done, token@);
        lemma_occurrences(after, token@);
    }
    let count: u32 = match frequencies_map.get(token.as_str()) {
        Some(n) => *n + 1,
        None => 1,
    };
    let ghost name = token@;
    let _ = frequencies_map.insert(token, count);
    proof {
        assert forall|t: Seq<char>| frequencies_map@.contains_key(t) == #[trigger] after.contains(t) by {
            lemma_occurrences(done, t);
            lemma_occurrences(after, t);
            assert(after.last() == name);
        }
        assert forall|t: Seq<char>| after.contains(t) implies #[trigger] frequencies_map@[t]
            == occurrences(after, t) as u32 by {
            lemma_occurrences(done, t);
            assert(after.last() == name);
            assert(frequencies_map@.contains_key(t));
        }
        assert(frequencies_map@ =~= frequencies(after));
    }
}

/// Unicode alphanumeric tokenization, lowercase, no stemming or stop words.
pub fn tokenize(text: &str) -> (result: Terms)
    requires
        text@.len() <= u32::MAX,
    ensures
        result@ == terms_of(text@),
{
    let mut found: TextMap<u32> = TextMap::new();
    let mut length: u32 = 0;
    let mut open = String::new();
    let mut empty = true;
    assert(found@ =~= frequencies(Seq::empty()));
    for c in it: text.chars()
        invariant
            it.seq() == text@,
            text@.len() <= u32::MAX,
            open@ == scan(text@.take(it.index())).open,
            empty == (open@.len() == 0),
            length == scan(text@.take(it.index())).done.len(),
            found@ == frequencies(scan(text@.take(it.index())).done),
    {
        let ghost i = it.index();
        let ghost front = scan(text@.take(i));
        proof {
            assert(text@.take(i + 1).drop_last() =~= text@.take(i));
            assert(text@.take(i + 1).last() == c);
            lemma_scan_len(text@.take(i));
        }
        if c.is_alphanumeric() {
            open.push(c);
            empty = false;
        } else {
            if !empty {
                add_token(&mut found, open.as_str(), Ghost(front.done));
                length = length + 1;
            }
            open = String::new();
            empty = true;
        }
    }
    let ghost last = scan(text@);
    proof {
        assert(text@.take(text@.len() as int) =~= text@);
        lemma_scan_len(text@);
    }
    if !empty {
        add_token(&mut found, open.as_str(), Ghost(last.done));
        length = length + 1;
    }
    Terms { length, frequencies: found }
}

// ---------------------------------------------------------------------------
// Terms of documents
// ---------------------------------------------------------------------------
/// The text of an attribute, if the document has it and it is a string.
pub open spec fn field_text(attributes: Map<Seq<char>, Json>, field: Seq<char>) -> Option<Seq<char>> {
    if attributes.contains_key(field) {
        as_text_spec(attributes[field]@)
    } else {
        None
    }
}

pub open spec fn field_terms(
    attributes: Map<Seq<char>, Json>,
    fields: Seq<Seq<char>>,
) -> Map<Seq<char>, TermsView> {
    Map::new(
        |f: Seq<char>| fields.contains(f) && field_text(attributes, f) is Some,
        |f: Seq<char>| terms_of(field_text(attributes, f)->0),
    )
}

pub open spec fn terms_view(terms: Map<Seq<char>, Terms>) -> Map<Seq<char>, TermsView> {
    terms.map_values(|t: Terms| t@)
}

/// Every text fits the width of its token counter.
pub open spec fn texts_bounded(attributes: Map<Seq<char>, Json>) -> bool {
    forall|f: Seq<char>| #[trigger]
        field_text(attributes, f) is Some ==> field_text(attributes, f)->0.len() <= u32::MAX
}

/// The text of an attribute.
pub fn text_of<'a>(attributes: &'a TextMap<Json>, field: &str) -> (text: Option<&'a String>)
    ensures
        match text {
            Some(t) => field_text(attributes@, field@) == Some(t@),
            None => field_text(attributes@, field@) is None,
        },
{
    match attributes.get(field) {
        Some(value) => value.as_text(),
        None => None,
    }
}

/// The terms of every searchable field that the document has as text.
pub fn document_terms(document: &Document, fields: &Vec<String>) -> (result: TextMap<Terms>)
    requires
        texts_bounded(document.attributes@),
    ensures
        terms_view(result@) == field_terms(document.attributes@, views(fields@)),
{
    let mut result: TextMap<Terms> = TextMap::new();
    let ghost attributes = document.attributes@;
    let ghost names = views(fields@);
    assert(terms_view(result@) =~= field_terms(attributes, names.take(0)));
    let mut i: usize = 0;
    while i < fields.len()
        invariant
            i <= fields@.len(),
            attributes == document.attributes@,
            texts_bounded(attributes),
            names == views(fields@),
            terms_view(result@) == field_terms(attributes, names.take(i as int)),
        decreases fields@.len() - i,
    {
        let ghost before = result@;
        let field = &fields[i];
        let ghost name = names[i as int];
        assert(field@ == name);
        proof {
            let next = names.take(i + 1);
            let front = names.take(i as int);
            assert forall|f: Seq<char>| #[trigger] next.contains(f) == (front.contains(f) || f == name) by {
                assert(next =~= front.push(name));
                if next.contains(f) {
                    let k = choose|k: int| 0 <= k < next.len() && next[k] == f;
                    if k < i {
                        assert(front[k] == f);
                    }
                }
                if front.contains(f) {
                    let k = choose|k: int| 0 <= k < front.len() && front[k] == f;
                    assert(next[k] == f);
                }
                assert(next[i as int] == name);
            }
        }
        match text_of(&document.attributes, field.as_str()) {
            Some(text) => {
                let terms = tokenize(text.as_str());
                let ghost added = terms@;
                let _ = result.insert(field.clone(), terms);
                proof {
                    let front = field_terms(attributes, names.take(i as int));
                    let next = field_terms(attributes, names.take(i + 1));
                    assert(terms_view(result@) =~= terms_view(before).insert(name, added));
                    assert(next =~= front.insert(name, added));
                }
            },
            None => {
                assert(terms_view(result@) =~= field_terms(attributes, names.take(i + 1)));
            },
        }
        i += 1;
    }
    assert(names.take(i as int) =~= names);
    result
}

// ---------------------------------------------------------------------------
// What tokens depend on
// ---------------------------------------------------------------------------
/// How often a term occurs; not at all where it is absent.
pub open spec fn frequency_of(terms: TermsView, term: Seq<char>) -> int {
    if terms.frequencies.contains_key(term) {
        terms.frequencies[term] as int
    } else {
        0
    }
}

proof fn lemma_scan_separated(a: Seq<char>, separator: char, b: Seq<char>)
    requires
        !alphanumeric(separator),
    ensures
        scan(a.push(separator) + b).done == tokens(a) + scan(b).done,
        scan(a.push(separator) + b).open == scan(b).open,
    decreases b.len(),
{
    let text = a.push(separator) + b;
    if b.len() == 0 {
        assert(text =~= a.push(separator));
        assert(text.drop_last() =~= a);
        assert(tokens(a) + scan(b).done =~= tokens(a));
    } else {
        let front = b.drop_last();
        lemma_scan_separated(a, separator, front);
        assert(text.drop_last() =~= a.push(separator) + front);
        assert(text.last() == b.last());
        if !alphanumeric(b.last()) && scan(front).open.len() > 0 {
            assert((tokens(a) + scan(front).done).push(lowercase(scan(front).open)) =~= tokens(a)
                + scan(front).done.push(lowercase(scan(front).open)));
        }
    }
}

proof fn lemma_occurrences_concat(a: Seq<Seq<char>>, b: Seq<Seq<char>>, item: Seq<char>)
    ensures
        occurrences(a + b, item) == occurrences(a, item) + occurrences(b, item),
    decreases b.len(),
{
    if b.len() == 0 {
        assert(a + b =~= a);
    } else {
        lemma_occurrences_concat(a, b.drop_last(), item);
        assert((a + b).drop_last() =~= a + b.drop_last());
    }
}

/// Texts joined by a character that belongs to no token have the tokens of both:
/// lengths and frequencies add up.
pub proof fn law_tokens_add_up(a: Seq<char>, separator: char, b: Seq<char>)
    requires
        !alphanumeric(separator),
        tokens(a).len() + tokens(b).len() <= u32::MAX,
    ensures
        ({
            let joined = terms_of(a.push(separator) + b);
            &&& tokens(a.push(separator) + b) == tokens(a) + tokens(b)
            &&& joined.length == terms_of(a).length + terms_of(b).length
            &&& forall|t: Seq<char>| #[trigger]
                frequency_of(joined, t) == frequency_of(terms_of(a), t) + frequency_of(
                    terms_of(b),
                    t,
                )
        }),
{
    let text = a.push(separator) + b;
    lemma_scan_separated(a, separator, b);
    assert(tokens(text) =~= tokens(a) + tokens(b));
    assert forall|t: Seq<char>| #[trigger]
        frequency_of(terms_of(text), t) == frequency_of(terms_of(a), t) + frequency_of(
            terms_of(b),
            t,
        ) by {
        lemma_occurrences_concat(tokens(a), tokens(b), t);
        lemma_occurrences(tokens(a), t);
        lemma_occurrences(tokens(b), t);
        lemma_occurrences(tokens(text), t);
    }
}

/// The texts differ in letter case at most: the same positions belong to tokens,
/// and every stretch of positions has the same lower-case form in both.
pub open spec fn same_but_for_case(a: Seq<char>, b: Seq<char>) -> bool {
    &&& a.len() == b.len()
    &&& forall|i: int| 0 <= i < a.len() ==> #[trigger] alphanumeric(a[i]) == alphanumeric(b[i])
    &&& forall|i: int, j: int|
        0 <= i < j <= a.len() ==> #[trigger] lowercase(a.subrange(i, j)) == lowercase(
            b.subrange(i, j),
        )
}

proof fn lemma_scan_case(a: Seq<char>, b: Seq<char>, n: int)
    requires
        same_but_for_case(a, b),
        0 <= n <= a.len(),
    ensures
        scan(a.take(n)).done == scan(b.take(n)).done,
        scan(a.take(n)).open.len() == scan(b.take(n)).open.len() <= n,
        scan(a.take(n)).open == a.subrange(n - scan(a.take(n)).open.len(), n),
        scan(b.take(n)).open == b.subrange(n - scan(b.take(n)).open.len(), n),
    decreases n,
{
    if n > 0 {
        let m = n - 1;
        lemma_scan_case(a, b, m);
        assert(a.take(n).drop_last() =~= a.take(m));
        assert(b.take(n).drop_last() =~= b.take(m));
        assert(alphanumeric(a[m]) == alphanumeric(b[m]));
        let open = scan(a.take(m)).open.len();
        if alphanumeric(a[m]) {
            assert(a.subrange(m - open, m).push(a[m]) =~= a.subrange(m - open, n));
            assert(b.subrange(m - open, m).push(b[m]) =~= b.subrange(m - open, n));
        } else if open > 0 {
            assert(lowercase(a.subrange(m - open, m)) == lowercase(b.subrange(m - open, m)));
        }
    }
}

/// Letter case does not matter to the tokens of a text.
pub proof fn law_case_ignored(a: Seq<char>, b: Seq<char>)
    requires
        same_but_for_case(a, b),
    ensures
        tokens(a) == tokens(b),
        terms_of(a) == terms_of(b),
{
    let n = a.len() as int;
    lemma_scan_case(a, b, n);
    assert(a.take(n) =~= a);
    assert(b.take(n) =~= b);
    let open = scan(a).open.len();
    if open > 0 {
        assert(lowercase(a.subrange(n - open, n)) == lowercase(b.subrange(n - open, n)));
    }
}

proof fn lemma_scan_run(run: Seq<char>)
    requires
        forall|i: int| 0 <= i < run.len() ==> alphanumeric(#[trigger] run[i]),
    ensures
        scan(run).done == Seq::<Seq<char>>::empty(),
        scan(run).open == run,
    decreases run.len(),
{
    if run.len() > 0 {
        let front = run.drop_last();
        assert forall|i: int| 0 <= i < front.len() implies alphanumeric(#[trigger] front[i]) by {
            assert(front[i] == run[i]);
        }
        lemma_scan_run(front);
        assert(alphanumeric(run[run.len() - 1]));
        assert(front.push(run.last()) =~= run);
    } else {
        assert(scan(run).open =~= run);
    }
}

/// A run of alphanumeric characters, however long, is one token, in lower case,
/// and an empty text has none. With the law on joined texts this says what the
/// tokens of every text are.
pub proof fn law_run_is_one_token(run: Seq<char>)
    requires
        forall|i: int| 0 <= i < run.len() ==> alphanumeric(#[trigger] run[i]),
    ensures
        run.len() > 0 ==> tokens(run) == seq![lowercase(run)],
        run.len() > 0 ==> terms_of(run).length == 1,
        run.len() > 0 ==> forall|t: Seq<char>| #[trigger]
            frequency_of(terms_of(run), t) == if t == lowercase(run) {
                1int
            } else {
                0
            },
        run.len() == 0 ==> tokens(run) == Seq::<Seq<char>>::empty(),
        run.len() == 0 ==> terms_of(run).length == 0,
{
    lemma_scan_run(run);
    if run.len() > 0 {
        let list = tokens(run);
        assert(list =~= seq![lowercase(run)]);
        assert forall|t: Seq<char>| #[trigger] frequency_of(terms_of(run), t) == if t == lowercase(
            run,
        ) {
            1int
        } else {
            0
        } by {
            lemma_occurrences(list, t);
            assert(list[0] == lowercase(run));
            assert(list.drop_last() =~= Seq::<Seq<char>>::empty());
            reveal_with_fuel(occurrences, 2);
        }
    }
}

/// The positions of an item in a list.
pub open spec fn positions(items: Seq<Seq<char>>, item: Seq<char>) -> Set<int> {
    Set::new(|i: int| 0 <= i < items.len() && items[i] == item)
}

pub proof fn lemma_positions(items: Seq<Seq<char>>, item: Seq<char>)
    ensures
        positions(items, item).finite(),
        occurrences(items, item) == positions(items, item).len(),
    decreases items.len(),
{
    let all = positions(items, item);
    if items.len() == 0 {
        assert(all =~= Set::<int>::empty());
    } else {
        let front = items.drop_last();
        let some = positions(front, item);
        let n = items.len() - 1;
        lemma_positions(front, item);
        assert forall|i: int| some.contains(i) implies items[i] == item && i < n by {
            assert(front[i] == items[i]);
        }
        if items.last() == item {
            assert(all =~= some.insert(n)) by {
                assert forall|i: int| all.contains(i) implies some.insert(n).contains(i) by {
                    if i < n {
                        assert(front[i] == items[i]);
                    }
                }
            }
        } else {
            assert(all =~= some) by {
                assert forall|i: int| all.contains(i) implies some.contains(i) by {
                    assert(i < n);
                    assert(front[i] == items[i]);
                }
            }
        }
    }
}

/// A text has the terms that are among its tokens, each as often as it stands
/// there, and its length is the number of its tokens.
pub proof fn law_terms_count_tokens(text: Seq<char>, term: Seq<char>)
    requires
        tokens(text).len() <= u32::MAX,
    ensures
        terms_of(text).length == tokens(text).len(),
        terms_of(text).frequencies.contains_key(term) <==> tokens(text).contains(term),
        frequency_of(terms_of(text), term) == positions(tokens(text), term).len(),
{
    lemma_positions(tokens(text), term);
    lemma_occurrences(tokens(text), term);
}

/// The searchable text of a document is that of the declared fields that it has as
/// text, and of no other.
pub proof fn law_declared_text_is_searchable(
    attributes: Map<Seq<char>, Json>,
    fields: Seq<Seq<char>>,
    field: Seq<char>,
)
    ensures
        field_terms(attributes, fields).contains_key(field) <==> fields.contains(field)
            && attributes.contains_key(field) && attributes[field]@ is Text,
        field_terms(attributes, fields).contains_key(field) ==> field_terms(
            attributes,
            fields,
        )[field] == terms_of(attributes[field]@->Text_0),
        forall|text: Seq<char>|
            field_text(attributes, field) == Some(text) <==> attributes.contains_key(field)
                && attributes[field]@ == JsonView::Text(text),
{
}

/// Terms show how many tokens there are and how often each occurs.
pub proof fn law_terms_show_their_fields(terms: Terms)
    ensures
        terms@.length == terms.length,
        terms@.frequencies == terms.frequencies@,
{
}

} // verus!
