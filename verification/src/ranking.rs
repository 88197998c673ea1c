//! Ranking: larger scores first, equal scores by ascending ID, and the best K of
//! any number of candidates.
use vstd::prelude::*;
use vstd::utf8::*;

use crate::double::{
    double_value, law_total_order_ranks_numbers, nan_double, total_greater, total_order,
};
use crate::text::{
    lemma_text_asymmetric, lemma_text_irreflexive, lemma_text_total, lemma_text_transitive, lex_lt,
    text_less, text_lt, views,
};

verus! {

/// A candidate: `score` holds the bits of a double.
#[derive(Debug)]
pub struct Ranked {
    pub id: String,
    pub score: u64,
}

pub struct Hit {
    pub id: Seq<char>,
    pub score: u64,
}

impl View for Ranked {
    type V = Hit;

    open spec fn view(&self) -> Hit {
        Hit { id: self.id@, score: self.score }
    }
}

pub open spec fn hits(ranked: Seq<Ranked>) -> Seq<Hit> {
    ranked.map_values(|r: Ranked| r@)
}

/// `a` ranks before `b`.
pub open spec fn before(a: Hit, b: Hit) -> bool {
    total_order(a.score) > total_order(b.score) || (total_order(a.score) == total_order(b.score)
        && text_lt(a.id, b.id))
}

pub proof fn lemma_before_total(a: Hit, b: Hit)
    ensures
        before(a, b) || before(b, a) || a == b,
        !(before(a, b) && before(b, a)),
        !before(a, a),
{
    lemma_text_total(a.id, b.id);
    lemma_text_irreflexive(a.id);
    if text_lt(a.id, b.id) {
        lemma_text_asymmetric(a.id, b.id);
    }
    if text_lt(b.id, a.id) {
        lemma_text_asymmetric(b.id, a.id);
    }
}

pub proof fn lemma_before_transitive(a: Hit, b: Hit, c: Hit)
    requires
        before(a, b),
        before(b, c),
    ensures
        before(a, c),
{
    if text_lt(a.id, b.id) && text_lt(b.id, c.id) {
        lemma_text_transitive(a.id, b.id, c.id);
    }
}

pub fn ranks_before(a: &Ranked, b: &Ranked) -> (first: bool)
    ensures
        first == before(a@, b@),
{
    if total_greater(a.score, b.score) {
        true
    } else if total_greater(b.score, a.score) {
        false
    } else {
        text_less(a.id.as_str(), b.id.as_str())
    }
}

/// No hit ranks before an earlier one.
pub open spec fn ranked_order(list: Seq<Hit>) -> bool {
    forall|i: int, j: int|
        #![trigger list[i], list[j]]
        0 <= i < j < list.len() ==> !before(list[j], list[i])
}

/// How many hits do not rank after `hit`: where it is inserted.
pub open spec fn place(list: Seq<Hit>, hit: Hit) -> int
    decreases list.len(),
{
    if list.len() == 0 {
        0
    } else if before(hit, list.last()) {
        place(list.drop_last(), hit)
    } else {
        list.len() as int
    }
}

pub open spec fn with_hit(list: Seq<Hit>, hit: Hit) -> Seq<Hit> {
    list.insert(place(list, hit), hit)
}

/// The candidates in ranking order.
pub open spec fn ranking(offers: Seq<Hit>) -> Seq<Hit>
    decreases offers.len(),
{
    if offers.len() == 0 {
        Seq::empty()
    } else {
        with_hit(ranking(offers.drop_last()), offers.last())
    }
}

pub open spec fn first(list: Seq<Hit>, k: nat) -> Seq<Hit> {
    if list.len() <= k {
        list
    } else {
        list.take(k as int)
    }
}

/// The best `k` candidates in ranking order.
pub open spec fn top_k(offers: Seq<Hit>, k: nat) -> Seq<Hit> {
    first(ranking(offers), k)
}

pub proof fn lemma_place(list: Seq<Hit>, hit: Hit)
    requires
        ranked_order(list),
    ensures
        0 <= place(list, hit) <= list.len(),
        forall|i: int| 0 <= i < place(list, hit) ==> !before(hit, #[trigger] list[i]),
        forall|i: int| place(list, hit) <= i < list.len() ==> before(hit, #[trigger] list[i]),
    decreases list.len(),
{
    if list.len() > 0 {
        let front = list.drop_last();
        assert(ranked_order(front)) by {
            assert forall|i: int, j: int|
                #![trigger front[i], front[j]]
                0 <= i < j < front.len() implies !before(front[j], front[i]) by {
                assert(front[i] == list[i] && front[j] == list[j]);
            }
        }
        lemma_place(front, hit);
        let n = list.len() - 1;
        if before(hit, list.last()) {
            assert forall|i: int| 0 <= i < place(list, hit) implies !before(hit, #[trigger] list[i]) by {
                assert(front[i] == list[i]);
            }
            assert forall|i: int| place(list, hit) <= i < list.len() implies before(
                hit,
                #[trigger] list[i],
            ) by {
                if i < n {
                    assert(front[i] == list[i]);
                }
            }
        } else {
            assert forall|i: int| 0 <= i < list.len() implies !before(hit, #[trigger] list[i]) by {
                if i < n && before(hit, list[i]) {
                    lemma_before_total(list[i], list[n]);
                    if before(list[i], list[n]) {
                        lemma_before_transitive(hit, list[i], list[n]);
                    } else {
                        assert(!before(list[n], list[i]));
                    }
                }
            }
        }
    }
}

pub proof fn lemma_with_hit(list: Seq<Hit>, hit: Hit)
    requires
        ranked_order(list),
    ensures
        ranked_order(with_hit(list, hit)),
        with_hit(list, hit).len() == list.len() + 1,
        with_hit(list, hit).to_multiset() == list.to_multiset().insert(hit),
{
    lemma_place(list, hit);
    let p = place(list, hit);
    let after = with_hit(list, hit);
    assert forall|i: int, j: int|
        #![trigger after[i], after[j]]
        0 <= i < j < after.len() implies !before(after[j], after[i]) by {
        let a = if i < p {
            list[i]
        } else if i == p {
            hit
        } else {
            list[i - 1]
        };
        let b = if j < p {
            list[j]
        } else if j == p {
            hit
        } else {
            list[j - 1]
        };
        assert(after[i] == a && after[j] == b);
        lemma_before_total(a, b);
        if i < p && j > p {
            assert(!before(list[j - 1], list[i]));
        }
    }
    broadcast use vstd::seq_lib::group_to_multiset_ensures;

}

pub proof fn lemma_ranking(offers: Seq<Hit>)
    ensures
        ranked_order(ranking(offers)),
        ranking(offers).len() == offers.len(),
        ranking(offers).to_multiset() == offers.to_multiset(),
    decreases offers.len(),
{
    broadcast use vstd::seq_lib::group_to_multiset_ensures;

    if offers.len() > 0 {
        let front = offers.drop_last();
        lemma_ranking(front);
        lemma_with_hit(ranking(front), offers.last());
        assert(offers =~= front.push(offers.last()));
    } else {
        assert(ranking(offers) =~= offers);
    }
}

proof fn lemma_ranked_unique(a: Seq<Hit>, b: Seq<Hit>)
    requires
        ranked_order(a),
        ranked_order(b),
        a.to_multiset() == b.to_multiset(),
    ensures
        a == b,
    decreases a.len(),
{
    broadcast use vstd::seq_lib::group_to_multiset_ensures;

    assert(a.len() == b.len()) by {
        assert(a.to_multiset().len() == a.len());
        assert(b.to_multiset().len() == b.len());
    }
    if a.len() > 0 {
        let x = a.last();
        let y = b.last();
        let n = a.len() - 1;
        assert(a.contains(a[n]) && b.contains(b[n]));
        assert(b.to_multiset().count(x) > 0);
        assert(a.to_multiset().count(y) > 0);
        assert(b.contains(x) && a.contains(y));
        let i = choose|i: int| 0 <= i < b.len() && b[i] == x;
        let j = choose|j: int| 0 <= j < a.len() && a[j] == y;
        lemma_before_total(x, y);
        assert(x == y) by {
            if i < n {
                assert(!before(b[n], b[i]));
            }
            if j < n {
                assert(!before(a[n], a[j]));
            }
        }
        let a0 = a.drop_last();
        let b0 = b.drop_last();
        assert(ranked_order(a0)) by {
            assert forall|p: int, q: int|
                #![trigger a0[p], a0[q]]
                0 <= p < q < a0.len() implies !before(a0[q], a0[p]) by {
                assert(a0[p] == a[p] && a0[q] == a[q]);
            }
        }
        assert(ranked_order(b0)) by {
            assert forall|p: int, q: int|
                #![trigger b0[p], b0[q]]
                0 <= p < q < b0.len() implies !before(b0[q], b0[p]) by {
                assert(b0[p] == b[p] && b0[q] == b[q]);
            }
        }
        assert(a =~= a0.push(x));
        assert(b =~= b0.push(y));
        assert(a0.to_multiset() =~= b0.to_multiset()) by {
            assert(a.to_multiset() =~= a0.to_multiset().insert(x));
            assert(b.to_multiset() =~= b0.to_multiset().insert(y));
            assert(a0.to_multiset() =~= a.to_multiset().remove(x));
            assert(b0.to_multiset() =~= b.to_multiset().remove(y));
        }
        lemma_ranked_unique(a0, b0);
    } else {
        assert(a =~= b);
    }
}

/// The best K do not depend on the order in which candidates are offered.
pub proof fn law_top_k_order_independent(a: Seq<Hit>, b: Seq<Hit>, k: nat)
    requires
        a.to_multiset() == b.to_multiset(),
    ensures
        top_k(a, k) == top_k(b, k),
{
    lemma_ranking(a);
    lemma_ranking(b);
    lemma_ranked_unique(ranking(a), ranking(b));
}

/// Two searches that score the same candidates, each once, answer the same, in
/// whatever order and portions they found them.
pub proof fn law_same_candidates_same_answer(a: Seq<Hit>, b: Seq<Hit>, k: nat)
    requires
        a.no_duplicates(),
        b.no_duplicates(),
        a.to_set() == b.to_set(),
    ensures
        top_k(a, k) == top_k(b, k),
{
    broadcast use vstd::seq_lib::group_to_multiset_ensures;

    a.lemma_multiset_has_no_duplicates();
    b.lemma_multiset_has_no_duplicates();
    assert forall|h: Hit| #[trigger] a.to_multiset().count(h) == b.to_multiset().count(h) by {
        assert(a.to_set().contains(h) == a.contains(h));
        assert(b.to_set().contains(h) == b.contains(h));
    }
    assert(a.to_multiset() =~= b.to_multiset());
    law_top_k_order_independent(a, b, k);
}

/// What stays of a ranked list is ranked, and each hit stays as often as it was
/// there.
proof fn lemma_ranked_filter(list: Seq<Hit>, keep: spec_fn(Hit) -> bool)
    requires
        ranked_order(list),
        list.no_duplicates(),
    ensures
        ranked_order(list.filter(keep)),
        list.filter(keep).no_duplicates(),
        list.filter(keep).len() <= list.len(),
        forall|hit: Hit| #[trigger]
            list.filter(keep).contains(hit) <==> list.contains(hit) && keep(hit),
    decreases list.len(),
{
    reveal(Seq::filter);
    let kept = list.filter(keep);
    if list.len() > 0 {
        let front = list.drop_last();
        let last = list.last();
        let some = front.filter(keep);
        assert(ranked_order(front)) by {
            assert forall|i: int, j: int|
                #![trigger front[i], front[j]]
                0 <= i < j < front.len() implies !before(front[j], front[i]) by {
                assert(front[i] == list[i] && front[j] == list[j]);
            }
        }
        lemma_ranked_filter(front, keep);
        assert(list =~= front.push(last));
        assert forall|hit: Hit| some.contains(hit) implies hit != last && !before(last, hit) by {
            assert(front.contains(hit));
            let i = choose|i: int| 0 <= i < front.len() && front[i] == hit;
            assert(list[i] == hit && list[list.len() - 1] == last);
        }
        assert forall|i: int, j: int|
            #![trigger kept[i], kept[j]]
            0 <= i < j < kept.len() implies !before(kept[j], kept[i]) && kept[i] != kept[j] by {
            assert(kept[i] == some[i]);
            assert(some.contains(some[i]));
            if j < some.len() {
                assert(kept[j] == some[j]);
            }
        }
        assert forall|hit: Hit| #[trigger] kept.contains(hit) <==> list.contains(hit) && keep(
            hit,
        ) by {
            crate::search::lemma_push_contains(front, last, hit);
            crate::search::lemma_push_contains(some, last, hit);
        }
    }
}

/// Ranking some of the candidates is leaving the others out of the ranking of
/// all.
pub proof fn law_ranking_restricts(some: Seq<Hit>, all: Seq<Hit>, keep: spec_fn(Hit) -> bool)
    requires
        some.no_duplicates(),
        all.no_duplicates(),
        forall|hit: Hit| #[trigger] some.contains(hit) <==> all.contains(hit) && keep(hit),
    ensures
        ranking(some) == ranking(all).filter(keep),
{
    broadcast use vstd::seq_lib::group_to_multiset_ensures;

    let kept = ranking(all).filter(keep);
    lemma_ranking(some);
    lemma_ranking(all);
    all.lemma_multiset_has_no_duplicates();
    ranking(all).lemma_multiset_has_no_duplicates_conv();
    lemma_ranked_filter(ranking(all), keep);
    some.lemma_multiset_has_no_duplicates();
    kept.lemma_multiset_has_no_duplicates();
    assert forall|hit: Hit| #[trigger] some.to_multiset().count(hit) == kept.to_multiset().count(
        hit,
    ) by {
        assert(some.contains(hit) <==> all.contains(hit) && keep(hit));
        assert(kept.contains(hit) <==> ranking(all).contains(hit) && keep(hit));
        assert(ranking(all).to_multiset().count(hit) == all.to_multiset().count(hit));
    }
    assert(ranking(some).to_multiset() =~= kept.to_multiset());
    lemma_ranked_unique(ranking(some), kept);
}

/// Hits rank by their scores, larger numbers first; equal scores by the bytes of
/// the IDs, smaller first.
pub proof fn law_hits_rank_by_score(a: Hit, b: Hit)
    requires
        !nan_double(a.score),
        !nan_double(b.score),
    ensures
        double_value(a.score) > double_value(b.score) ==> before(a, b) && !before(b, a),
        a.score == b.score ==> (before(a, b) <==> lex_lt(encode_utf8(a.id), encode_utf8(b.id))),
        before(a, b) ==> double_value(a.score) >= double_value(b.score),
{
    law_total_order_ranks_numbers(a.score, b.score);
    law_total_order_ranks_numbers(b.score, a.score);
}

/// An answer holds the best `k` candidates, or all if there are fewer, each as
/// often as it was offered. It is sorted by score, larger numbers first, and
/// among equal scores by ID.
pub proof fn law_answers_are_sorted(offers: Seq<Hit>, k: nat)
    requires
        forall|i: int| 0 <= i < offers.len() ==> !nan_double((#[trigger] offers[i]).score),
    ensures
        top_k(offers, k).len() == if offers.len() <= k {
            offers.len()
        } else {
            k
        },
        offers.len() <= k ==> top_k(offers, k).to_multiset() == offers.to_multiset(),
        forall|i: int|
            0 <= i < top_k(offers, k).len() ==> offers.contains(#[trigger] top_k(offers, k)[i]),
        forall|i: int, j: int|
            #![trigger top_k(offers, k)[i], top_k(offers, k)[j]]
            0 <= i < j < top_k(offers, k).len() ==> {
                let (a, b) = (top_k(offers, k)[i], top_k(offers, k)[j]);
                &&& double_value(a.score) >= double_value(b.score)
                &&& a.score == b.score ==> !lex_lt(encode_utf8(b.id), encode_utf8(a.id))
            },
        forall|hit: Hit, i: int|
            #![trigger offers.contains(hit), top_k(offers, k)[i]]
            offers.contains(hit) && !top_k(offers, k).contains(hit) && 0 <= i < top_k(
                offers,
                k,
            ).len() ==> {
                let kept = top_k(offers, k)[i];
                &&& double_value(kept.score) >= double_value(hit.score)
                &&& kept.score == hit.score ==> lex_lt(encode_utf8(kept.id), encode_utf8(hit.id))
            },
{
    broadcast use vstd::seq_lib::group_to_multiset_ensures;

    lemma_ranking(offers);
    let all = ranking(offers);
    let best = top_k(offers, k);
    assert forall|i: int| 0 <= i < best.len() implies offers.contains(#[trigger] best[i]) by {
        assert(best[i] == all[i]);
        assert(all.contains(all[i]));
        assert(all.to_multiset().contains(all[i]));
    }
    assert forall|i: int, j: int|
        #![trigger best[i], best[j]]
        0 <= i < j < best.len() implies {
        let (a, b) = (best[i], best[j]);
        &&& double_value(a.score) >= double_value(b.score)
        &&& a.score == b.score ==> !lex_lt(encode_utf8(b.id), encode_utf8(a.id))
    } by {
        assert(best[i] == all[i] && best[j] == all[j]);
        assert(offers.contains(best[i]) && offers.contains(best[j]));
        law_hits_rank_by_score(best[j], best[i]);
    }
    assert forall|hit: Hit, i: int|
        #![trigger offers.contains(hit), best[i]]
        offers.contains(hit) && !best.contains(hit) && 0 <= i < best.len() implies {
        let kept = best[i];
        &&& double_value(kept.score) >= double_value(hit.score)
        &&& kept.score == hit.score ==> lex_lt(encode_utf8(kept.id), encode_utf8(hit.id))
    } by {
        assert(offers.to_multiset().contains(hit));
        assert(all.to_multiset().contains(hit));
        assert(all.contains(hit));
        let j = choose|j: int| 0 <= j < all.len() && all[j] == hit;
        if j < best.len() {
            assert(best[j] == hit);
        }
        assert(best[i] == all[i]);
        assert(best.contains(best[i]));
        assert(offers.contains(best[i]));
        assert(!before(all[j], all[i]));
        lemma_before_total(best[i], hit);
        law_hits_rank_by_score(hit, best[i]);
        law_hits_rank_by_score(best[i], hit);
    }
}

/// The best K are the K that no other candidate ranks before: whatever was
/// offered and is not among them ranks before none of them.
pub proof fn law_top_k_best(offers: Seq<Hit>, k: nat, kept: int, other: int)
    requires
        0 <= kept < top_k(offers, k).len(),
        top_k(offers, k).len() <= other < ranking(offers).len(),
    ensures
        top_k(offers, k).len() == if offers.len() <= k {
            offers.len()
        } else {
            k
        },
        top_k(offers, k)[kept] == ranking(offers)[kept],
        !before(ranking(offers)[other], top_k(offers, k)[kept]),
{
    lemma_ranking(offers);
}

/// Keeping only the first K while candidates come in loses nothing.
proof fn lemma_first_with_hit(list: Seq<Hit>, hit: Hit, k: nat)
    requires
        ranked_order(list),
    ensures
        first(with_hit(first(list, k), hit), k) == first(with_hit(list, hit), k),
        ranked_order(first(list, k)),
{
    let short = first(list, k);
    assert(ranked_order(short)) by {
        assert forall|i: int, j: int|
            #![trigger short[i], short[j]]
            0 <= i < j < short.len() implies !before(short[j], short[i]) by {
            assert(short[i] == list[i] && short[j] == list[j]);
        }
    }
    lemma_place(list, hit);
    lemma_place(short, hit);
    if list.len() > k {
        let p = place(list, hit);
        let q = place(short, hit);
        assert(q == if p <= k {
            p
        } else {
            k as int
        }) by {
            if p <= k {
                if q < p {
                    assert(before(hit, short[q]));
                    assert(short[q] == list[q]);
                }
                if p < q {
                    assert(!before(hit, short[p]));
                    assert(short[p] == list[p]);
                }
            } else if q < k {
                assert(before(hit, short[q]));
                assert(short[q] == list[q]);
            }
        }
        assert(first(with_hit(short, hit), k) =~= first(with_hit(list, hit), k));
    }
}

/// Offering one more candidate to the best K so far gives the best K of all.
pub proof fn law_retain_keeps_top_k(offers: Seq<Hit>, hit: Hit, k: nat)
    ensures
        first(with_hit(top_k(offers, k), hit), k) == top_k(offers.push(hit), k),
        ranked_order(top_k(offers, k)),
        top_k(offers, k).len() <= k,
{
    lemma_ranking(offers);
    lemma_first_with_hit(ranking(offers), hit, k);
    assert(offers.push(hit).drop_last() =~= offers);
}

/// Offers a candidate to the best `k` so far: it is inserted where it ranks, and
/// only the first `k` stay.
pub fn retain(best: &mut Vec<Ranked>, id: String, score: u64, k: usize)
    requires
        ranked_order(hits(old(best)@)),
        old(best)@.len() <= k,
    ensures
        hits(final(best)@) == first(
            with_hit(hits(old(best)@), Hit { id: id@, score }),
            k as nat,
        ),
        ranked_order(hits(final(best)@)),
        final(best)@.len() <= k,
{
    let hit = Ranked { id, score };
    let ghost start = hits(best@);
    let ghost h = hit@;
    let mut at: usize = best.len();
    proof {
        lemma_place(start, h);
        lemma_with_hit(start, h);
    }
    while at > 0 && ranks_before(&hit, &best[at - 1])
        invariant
            at <= best@.len(),
            hits(best@) == start,
            h == hit@,
            0 <= place(start, h) <= at,
            forall|i: int| 0 <= i < place(start, h) ==> !before(h, #[trigger] start[i]),
            forall|i: int| place(start, h) <= i < start.len() ==> before(h, #[trigger] start[i]),
        decreases at,
    {
        assert(start[at - 1] == best@[at - 1]@);
        at -= 1;
    }
    proof {
        if at > 0 {
            assert(start[at - 1] == best@[at - 1]@);
        }
        assert(at == place(start, h));
    }
    let ghost whole = with_hit(start, h);
    if at < k {
        best.insert(at, hit);
        assert(hits(best@) =~= whole);
        if best.len() > k {
            let ghost all = best@;
            let _ = best.pop();
            assert(hits(best@) =~= first(whole, k as nat));
        }
    } else {
        assert(first(whole, k as nat) =~= start);
    }
    proof {
        let short = hits(best@);
        assert forall|i: int, j: int|
            #![trigger short[i], short[j]]
            0 <= i < j < short.len() implies !before(short[j], short[i]) by {
            assert(short[i] == whole[i] && short[j] == whole[j]);
        }
    }
}

pub open spec fn scored(ids: Seq<Seq<char>>, scores: Seq<u64>, n: nat) -> Seq<Hit> {
    Seq::new(n, |i: int| Hit { id: ids[i], score: scores[i] })
}

proof fn lemma_ranking_of_ranked(list: Seq<Hit>)
    requires
        ranked_order(list),
    ensures
        ranking(list) == list,
{
    lemma_ranking(list);
    lemma_ranked_unique(ranking(list), list);
}

/// Candidates can be ranked in portions: the best K of the best K so far and of
/// further candidates are the best K of all.
pub proof fn law_top_k_incremental(a: Seq<Hit>, b: Seq<Hit>, k: nat)
    ensures
        top_k(top_k(a, k) + b, k) == top_k(a + b, k),
    decreases b.len(),
{
    let short = top_k(a, k);
    law_retain_keeps_top_k(a, Hit { id: Seq::empty(), score: 0 }, k);
    if b.len() == 0 {
        assert(short + b =~= short);
        assert(a + b =~= a);
        lemma_ranking_of_ranked(short);
    } else {
        let front = b.drop_last();
        law_top_k_incremental(a, front, k);
        law_retain_keeps_top_k(short + front, b.last(), k);
        law_retain_keeps_top_k(a + front, b.last(), k);
        assert((short + front).push(b.last()) =~= short + b);
        assert((a + front).push(b.last()) =~= a + b);
    }
}

/// Offers scored rows to the best `k` so far.
pub fn score_rows(best: &mut Vec<Ranked>, ids: &Vec<String>, scores: &Vec<u64>, k: usize)
    requires
        ids@.len() == scores@.len(),
        ranked_order(hits(old(best)@)),
        old(best)@.len() <= k,
    ensures
        hits(final(best)@) == top_k(
            hits(old(best)@) + scored(views(ids@), scores@, ids@.len()),
            k as nat,
        ),
        ranked_order(hits(final(best)@)),
        final(best)@.len() <= k,
{
    let ghost start = hits(best@);
    let ghost names = views(ids@);
    let mut i: usize = 0;
    proof {
        lemma_ranking_of_ranked(start);
        assert(start + scored(names, scores@, 0) =~= start);
    }
    while i < ids.len()
        invariant
            i <= ids@.len() == scores@.len(),
            names == views(ids@),
            ranked_order(hits(best@)),
            best@.len() <= k,
            hits(best@) == top_k(start + scored(names, scores@, i as nat), k as nat),
        decreases ids@.len() - i,
    {
        retain(best, ids[i].clone(), scores[i], k);
        proof {
            let hit = Hit { id: names[i as int], score: scores@[i as int] };
            let all = start + scored(names, scores@, i as nat);
            law_retain_keeps_top_k(all, hit, k as nat);
            assert(all.push(hit) =~= start + scored(names, scores@, (i + 1) as nat));
        }
        i += 1;
    }
}

/// Scored rows are hits with the ID and the score at each position, and a ranked
/// candidate is the hit with its ID and its score.
pub proof fn law_hits_show_their_rows(
    ids: Seq<Seq<char>>,
    scores: Seq<u64>,
    ranked: Seq<Ranked>,
    i: int,
)
    ensures
        scored(ids, scores, ids.len()).len() == ids.len(),
        0 <= i < ids.len() ==> scored(ids, scores, ids.len())[i].id == ids[i] && scored(
            ids,
            scores,
            ids.len(),
        )[i].score == scores[i],
        hits(ranked).len() == ranked.len(),
        0 <= i < ranked.len() ==> hits(ranked)[i].id == ranked[i].id@ && hits(ranked)[i].score
            == ranked[i].score,
{
}

} // verus!
