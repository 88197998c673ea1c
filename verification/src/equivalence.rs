//! Searches over an index answer as searches over the documents do.
use vstd::prelude::*;

use crate::binary::Row;
use crate::bm25::Documents;
use crate::filtering::{
    accepted_document, exact_candidate, in_some_cluster, law_filtered_is_exact,
    law_full_probe_is_exact, postings_reliable, selection_exact, unchanged, Live,
};
use crate::generation::{lemma_concat_member, Generation, Store};
use crate::history::live_attributes;
use crate::index::cluster_rows;
use crate::json::Json;
use crate::model::{Filter, SearchHit};
use crate::ranking::{
    law_same_candidates_same_answer, law_top_k_incremental, lemma_ranking, ranking, top_k, Hit,
};
use crate::reads::{
    block_at, blocks_counted, expected_values, ids_distinct, indexable, law_filter_reads_select,
    lemma_ids_concat, lemma_order_covers, lemma_probed_distinct, lemma_probed_member,
    lemma_probed_read, lists_read, probed_rows, rows_read,
};
use crate::search::{
    all_present, common, counted_rows, id_set, indexed_plan, matches_hits, probe_count,
    probe_order, probed_keys, row_counts, Plan, Stage, StepView, VectorSearch,
};
use crate::text::lemma_text_irreflexive;
use crate::textmap::{lemma_ordered_exists, ordered, TextMap};

verus! {

// ---------------------------------------------------------------------------
// The candidates of a run
// ---------------------------------------------------------------------------
/// The vectors of the documents among the first `n` IDs that are accepted.
pub open spec fn live_rows(
    live: Map<Seq<char>, Live>,
    accepted: spec_fn(Live) -> bool,
    ids: Seq<Seq<char>>,
    n: nat,
) -> Seq<Row>
    decreases n,
{
    if n == 0 {
        Seq::empty()
    } else {
        let front = live_rows(live, accepted, ids, (n - 1) as nat);
        let id = ids[n - 1];
        if live.contains_key(id) && accepted(live[id]) && live[id].vector is Some {
            front.push(Row { id, vector: live[id].vector->0 })
        } else {
            front
        }
    }
}

/// The rows that count among those of the first `n` blocks.
pub open spec fn block_rows(
    store: Store,
    dirty: Set<Seq<char>>,
    selected: Option<Set<Seq<char>>>,
    keys: Seq<Seq<char>>,
    n: nat,
) -> Seq<Row>
    decreases n,
{
    if n == 0 {
        Seq::empty()
    } else {
        block_rows(store, dirty, selected, keys, (n - 1) as nat) + match block_at(
            store,
            keys[n - 1],
        ) {
            Some(rows) => counted_rows(dirty, selected, rows, rows.len()),
            None => Seq::empty(),
        }
    }
}

/// What a vector search reads from: the documents as they are, and a generation
/// whose clusters are probed in an order.
pub struct Lookup {
    pub live: Map<Seq<char>, Live>,
    pub filter: Filter,
    pub store: Store,
    pub prefix: Seq<char>,
    pub order: Seq<usize>,
    pub blocks: Seq<usize>,
    pub probes: usize,
}

/// How many steps a search still takes.
pub open spec fn steps_left(stage: Stage) -> nat {
    match stage {
        Stage::Candidates => 2,
        Stage::Changes => 1,
        Stage::Done => 0,
    }
}

impl Lookup {
    /// The candidates that a step of a search finds: visited documents that the
    /// filter accepts, listed documents, and rows of blocks that count.
    pub open spec fn step_rows(self, search: VectorSearch, step: StepView) -> Seq<Row> {
        let visited = |document: Live| self.filter.accepts(document.attributes);
        match step {
            StepView::Scan => live_rows(
                self.live,
                visited,
                ordered(self.live.dom()),
                self.live.dom().len(),
            ),
            StepView::Listed(ids) => live_rows(self.live, |document: Live| true, ids, ids.len()),
            StepView::Blocks(keys) => block_rows(
                self.store,
                search.dirty@.dom(),
                id_set(search.selected),
                keys,
                keys.len(),
            ),
            StepView::Changed(ids) => live_rows(self.live, visited, ids, ids.len()),
            StepView::Finish => Seq::empty(),
        }
    }

    /// The candidates that a search finds from where it is to its end.
    pub open spec fn run_rows(self, search: VectorSearch) -> Seq<Row>
        decreases steps_left(search.stage),
    {
        if search.stage == Stage::Done {
            Seq::empty()
        } else {
            self.step_rows(
                search,
                search.next_step(self.prefix, self.order, self.blocks, self.probes),
            ) + self.run_rows(VectorSearch { stage: search.next_stage(), ..search })
        }
    }
}

/// Candidates with their scores.
pub open spec fn hits_of(rows: Seq<Row>, score: spec_fn(Seq<u32>) -> u64) -> Seq<Hit> {
    rows.map_values(|row: Row| Hit { id: row.id, score: score(row.vector) })
}

/// The best hits after portions of candidates were offered.
pub open spec fn offered(portions: Seq<Seq<Hit>>, k: nat) -> Seq<Hit>
    decreases portions.len(),
{
    if portions.len() == 0 {
        Seq::empty()
    } else {
        top_k(offered(portions.drop_last(), k) + portions.last(), k)
    }
}

pub open spec fn all_offers(portions: Seq<Seq<Hit>>) -> Seq<Hit>
    decreases portions.len(),
{
    if portions.len() == 0 {
        Seq::empty()
    } else {
        all_offers(portions.drop_last()) + portions.last()
    }
}

/// A search that has not begun, with sets as its maps hold them.
pub open spec fn fresh(search: VectorSearch) -> bool {
    &&& search.stage == Stage::Candidates
    &&& search.best@.len() == 0
    &&& search.dirty@.dom().finite()
    &&& search.selected is Some ==> search.selected->0@.dom().finite()
}

// ---------------------------------------------------------------------------
// Candidates are found once
// ---------------------------------------------------------------------------
proof fn lemma_live_rows(
    live: Map<Seq<char>, Live>,
    accepted: spec_fn(Live) -> bool,
    ids: Seq<Seq<char>>,
    n: nat,
    row: Row,
)
    requires
        n <= ids.len(),
    ensures
        live_rows(live, accepted, ids, n).contains(row) <==> ids.take(n as int).contains(row.id)
            && live.contains_key(row.id) && accepted(live[row.id]) && live[row.id].vector == Some(
            row.vector,
        ),
    decreases n,
{
    if n > 0 {
        let m = (n - 1) as nat;
        let front = live_rows(live, accepted, ids, m);
        let id = ids[n - 1];
        lemma_live_rows(live, accepted, ids, m, row);
        assert(ids.take(n as int) =~= ids.take(m as int).push(id));
        crate::search::lemma_push_contains(ids.take(m as int), id, row.id);
        if live.contains_key(id) && accepted(live[id]) && live[id].vector is Some {
            crate::search::lemma_push_contains(
                front,
                Row { id, vector: live[id].vector->0 },
                row,
            );
        }
    }
}

proof fn lemma_live_distinct(
    live: Map<Seq<char>, Live>,
    accepted: spec_fn(Live) -> bool,
    ids: Seq<Seq<char>>,
    n: nat,
)
    requires
        n <= ids.len(),
        ids.no_duplicates(),
    ensures
        ids_distinct(live_rows(live, accepted, ids, n)),
    decreases n,
{
    if n > 0 {
        let m = (n - 1) as nat;
        lemma_live_distinct(live, accepted, ids, m);
        let front = live_rows(live, accepted, ids, m);
        let all = live_rows(live, accepted, ids, n);
        assert forall|i: int, j: int|
            #![trigger all[i], all[j]]
            0 <= i < j < all.len() implies all[i].id != all[j].id by {
            assert(all[i] == front[i]);
            if j < front.len() {
                assert(all[j] == front[j]);
            } else {
                assert(front.contains(front[i]));
                lemma_live_rows(live, accepted, ids, m, front[i]);
                let k = choose|k: int|
                    0 <= k < m && ids.take(m as int)[k] == front[i].id;
                assert(ids[k] != ids[n - 1]);
            }
        }
    }
}

/// The members of a finite set, in order, are there once each.
pub proof fn lemma_ordered_members(keys: Set<Seq<char>>)
    requires
        keys.finite(),
    ensures
        ordered(keys).no_duplicates(),
        ordered(keys).len() == keys.len(),
        forall|key: Seq<char>| #[trigger] ordered(keys).contains(key) <==> keys.contains(key),
{
    lemma_ordered_exists(keys);
    let list = ordered(keys);
    assert forall|i: int, j: int|
        0 <= i < list.len() && 0 <= j < list.len() && i != j implies list[i] != list[j] by {
        lemma_text_irreflexive(list[i]);
    }
    assert forall|key: Seq<char>| #[trigger] list.contains(key) <==> keys.contains(key) by {
        assert(list.to_set().contains(key) == list.contains(key));
    }
}

proof fn lemma_counted(
    dirty: Set<Seq<char>>,
    selected: Option<Set<Seq<char>>>,
    rows: Seq<Row>,
    n: nat,
    row: Row,
)
    requires
        n <= rows.len(),
    ensures
        counted_rows(dirty, selected, rows, n).contains(row) <==> rows.take(n as int).contains(row)
            && row_counts(dirty, selected, row),
    decreases n,
{
    if n > 0 {
        let m = (n - 1) as nat;
        lemma_counted(dirty, selected, rows, m, row);
        assert(rows.take(n as int) =~= rows.take(m as int).push(rows[n - 1]));
        crate::search::lemma_push_contains(rows.take(m as int), rows[n - 1], row);
        crate::search::lemma_push_contains(
            counted_rows(dirty, selected, rows, m),
            rows[n - 1],
            row,
        );
    }
}

proof fn lemma_counted_distinct(
    dirty: Set<Seq<char>>,
    selected: Option<Set<Seq<char>>>,
    rows: Seq<Row>,
    n: nat,
)
    requires
        n <= rows.len(),
        ids_distinct(rows),
    ensures
        ids_distinct(counted_rows(dirty, selected, rows, n)),
    decreases n,
{
    if n > 0 {
        let m = (n - 1) as nat;
        lemma_counted_distinct(dirty, selected, rows, m);
        let front = counted_rows(dirty, selected, rows, m);
        let all = counted_rows(dirty, selected, rows, n);
        assert forall|i: int, j: int|
            #![trigger all[i], all[j]]
            0 <= i < j < all.len() implies all[i].id != all[j].id by {
            assert(all[i] == front[i]);
            if j < front.len() {
                assert(all[j] == front[j]);
            } else {
                assert(front.contains(front[i]));
                lemma_counted(dirty, selected, rows, m, front[i]);
                let k = choose|k: int| 0 <= k < m && rows.take(m as int)[k] == front[i];
                assert(rows[k].id != rows[n - 1].id);
            }
        }
    }
}

proof fn lemma_counted_concat(
    dirty: Set<Seq<char>>,
    selected: Option<Set<Seq<char>>>,
    a: Seq<Row>,
    b: Seq<Row>,
    n: nat,
)
    requires
        n <= a.len() + b.len(),
    ensures
        n <= a.len() ==> counted_rows(dirty, selected, a + b, n) == counted_rows(
            dirty,
            selected,
            a,
            n,
        ),
        n >= a.len() ==> counted_rows(dirty, selected, a + b, n) == counted_rows(
            dirty,
            selected,
            a,
            a.len(),
        ) + counted_rows(dirty, selected, b, (n - a.len()) as nat),
    decreases n,
{
    let first = counted_rows(dirty, selected, a, a.len());
    if n == 0 {
        assert(first + counted_rows(dirty, selected, b, 0) =~= first);
    } else {
        lemma_counted_concat(dirty, selected, a, b, (n - 1) as nat);
        if n <= a.len() {
            assert((a + b)[n - 1] == a[n - 1]);
            assert(first + counted_rows(dirty, selected, b, 0) =~= first);
        } else {
            let k = (n - a.len()) as nat;
            assert((a + b)[n - 1] == b[k - 1]);
            assert(counted_rows(dirty, selected, a + b, n) =~= first + counted_rows(
                dirty,
                selected,
                b,
                k,
            ));
        }
    }
}

proof fn lemma_block_rows(
    store: Store,
    dirty: Set<Seq<char>>,
    selected: Option<Set<Seq<char>>>,
    keys: Seq<Seq<char>>,
    n: nat,
)
    requires
        n <= keys.len(),
    ensures
        block_rows(store, dirty, selected, keys, n) == counted_rows(
            dirty,
            selected,
            rows_read(store, keys, n),
            rows_read(store, keys, n).len(),
        ),
    decreases n,
{
    if n > 0 {
        let m = (n - 1) as nat;
        lemma_block_rows(store, dirty, selected, keys, m);
        let front = rows_read(store, keys, m);
        let own = match block_at(store, keys[n - 1]) {
            Some(rows) => rows,
            None => Seq::empty(),
        };
        lemma_counted_concat(dirty, selected, front, own, front.len() + own.len());
        assert(rows_read(store, keys, n) == front + own);
    }
}

// ---------------------------------------------------------------------------
// Runs
// ---------------------------------------------------------------------------
/// A scan finds the candidates of an exact search, each once.
proof fn lemma_exact_run(lookup: Lookup, search: VectorSearch)
    requires
        fresh(search),
        search.plan == Plan::ExactScan,
        lookup.live.dom().finite(),
    ensures
        ids_distinct(lookup.run_rows(search)),
        forall|row: Row| #[trigger]
            lookup.run_rows(search).contains(row) <==> exact_candidate(
                lookup.live,
                lookup.filter,
                row,
            ),
{
    let visited = |document: Live| lookup.filter.accepts(document.attributes);
    let ids = ordered(lookup.live.dom());
    let found = live_rows(lookup.live, visited, ids, lookup.live.dom().len());
    lemma_ordered_members(lookup.live.dom());
    let ended = VectorSearch { stage: search.next_stage(), ..search };
    assert(lookup.run_rows(ended) =~= Seq::<Row>::empty());
    assert(lookup.run_rows(search) =~= found);
    lemma_live_distinct(lookup.live, visited, ids, ids.len());
    assert forall|row: Row| #[trigger] found.contains(row) <==> exact_candidate(
        lookup.live,
        lookup.filter,
        row,
    ) by {
        lemma_live_rows(lookup.live, visited, ids, ids.len(), row);
        assert(ids.take(ids.len() as int) =~= ids);
        assert(ids.contains(row.id) <==> lookup.live.dom().contains(row.id));
    }
}

/// The changed documents bring the candidates among them, each once.
proof fn lemma_changed(lookup: Lookup, search: VectorSearch, first: Seq<Row>)
    requires
        search.dirty@.dom().finite(),
        ids_distinct(first),
        forall|row: Row| #[trigger]
            first.contains(row) ==> !search.dirty@.dom().contains(row.id),
    ensures
        ({
            let changes = VectorSearch { stage: Stage::Changes, ..search };
            let all = first + lookup.run_rows(changes);
            &&& ids_distinct(all)
            &&& forall|row: Row| #[trigger]
                all.contains(row) <==> first.contains(row) || (search.dirty@.dom().contains(row.id)
                    && exact_candidate(lookup.live, lookup.filter, row))
        }),
{
    let dirty = search.dirty@.dom();
    let visited = |document: Live| lookup.filter.accepts(document.attributes);
    let ids = ordered(dirty);
    let found = live_rows(lookup.live, visited, ids, ids.len());
    lemma_ordered_members(dirty);
    let changes = VectorSearch { stage: Stage::Changes, ..search };
    let ended = VectorSearch { stage: Stage::Done, ..changes };
    assert(lookup.run_rows(ended) =~= Seq::<Row>::empty());
    assert(lookup.run_rows(changes) =~= found);
    lemma_live_distinct(lookup.live, visited, ids, ids.len());
    assert(ids.take(ids.len() as int) =~= ids);
    assert forall|i: int, j: int|
        #![trigger first[i], found[j]]
        0 <= i < first.len() && 0 <= j < found.len() implies first[i].id != found[j].id by {
        assert(first.contains(first[i]) && found.contains(found[j]));
        lemma_live_rows(lookup.live, visited, ids, ids.len(), found[j]);
        assert(ids.contains(found[j].id));
    }
    lemma_ids_concat(first, found);
    assert forall|row: Row| #[trigger] (first + found).contains(row) <==> first.contains(row) || (
    dirty.contains(row.id) && exact_candidate(lookup.live, lookup.filter, row)) by {
        lemma_concat_member(first, found, row);
        lemma_live_rows(lookup.live, visited, ids, ids.len(), row);
        assert(ids.contains(row.id) <==> dirty.contains(row.id));
    }
}

/// The lookup reads the generation, which was built from documents that are as
/// they were but for the changed ones.
pub open spec fn reads_generation(lookup: Lookup, g: Generation, scores: Seq<u64>) -> bool {
    &&& indexable(g)
    &&& lookup.store == g.store()
    &&& lookup.prefix == g.prefix
    &&& blocks_counted(g, lookup.blocks)
    &&& scores.len() == g.clusters()
    &&& probe_order(scores, lookup.order)
}

proof fn lemma_order_distinct(scores: Seq<u64>, order: Seq<usize>)
    requires
        probe_order(scores, order),
    ensures
        order.no_duplicates(),
{
    assert forall|i: int, j: int|
        0 <= i < order.len() && 0 <= j < order.len() && i != j implies order[i] != order[j] by {
        if i < j {
            assert(order[i] != order[j]);
        } else {
            assert(order[j] != order[i]);
        }
    }
}

/// Probing every cluster brings each row of a generation once.
proof fn lemma_probed_all(g: Generation, scores: Seq<u64>, order: Seq<usize>, row: Row)
    requires
        scores.len() == g.clusters(),
        probe_order(scores, order),
    ensures
        probed_rows(g, order, order.len()).contains(row) <==> in_some_cluster(
            g.rows(),
            g.training.assignment@,
            g.clusters(),
            row,
        ),
{
    lemma_order_distinct(scores, order);
    lemma_probed_member(g, order, order.len(), row);
    if in_some_cluster(g.rows(), g.training.assignment@, g.clusters(), row) {
        let c = choose|c: int|
            0 <= c < g.clusters() && #[trigger] cluster_rows(
                g.rows(),
                g.training.assignment@,
                c,
                g.rows().len(),
            ).contains(row);
        lemma_order_covers(order, c);
        let i = choose|i: int| 0 <= i < order.len() && (#[trigger] order[i]) as int == c;
        assert(g.cluster(order[i] as int).contains(row));
    }
    if probed_rows(g, order, order.len()).contains(row) {
        let i = choose|i: int|
            0 <= i < order.len() && g.cluster((#[trigger] order[i]) as int).contains(row);
        assert(cluster_rows(
            g.rows(),
            g.training.assignment@,
            order[i] as int,
            g.rows().len(),
        ).contains(row));
    }
}

/// A search over an index finds the candidates of an exact search, each once, if
/// it probes every cluster or scores a selective filter by ID.
proof fn lemma_indexed_run(
    lookup: Lookup,
    g: Generation,
    scores: Seq<u64>,
    search: VectorSearch,
    threshold: usize,
)
    requires
        reads_generation(lookup, g, scores),
        fresh(search),
        search.plan == indexed_plan(id_set(search.selected), threshold),
        unchanged(lookup.live, g.documents, search.dirty@.dom()),
        selection_exact(g.documents, lookup.filter, id_set(search.selected)),
        search.plan == Plan::CentroidAnn ==> g.clusters() <= lookup.probes,
    ensures
        ids_distinct(lookup.run_rows(search)),
        forall|row: Row| #[trigger]
            lookup.run_rows(search).contains(row) <==> exact_candidate(
                lookup.live,
                lookup.filter,
                row,
            ),
{
    let dirty = search.dirty@.dom();
    let selected = id_set(search.selected);
    let changes = VectorSearch { stage: Stage::Changes, ..search };
    if search.plan == Plan::FilteredExact {
        let ids = ordered(selected->0.difference(dirty));
        let all = |document: Live| true;
        lemma_ordered_members(selected->0.difference(dirty));
        let first = live_rows(lookup.live, all, ids, ids.len());
        lemma_live_distinct(lookup.live, all, ids, ids.len());
        assert(ids.take(ids.len() as int) =~= ids);
        assert forall|row: Row| #[trigger] first.contains(row) <==> selected->0.contains(row.id)
            && !dirty.contains(row.id) && lookup.live.contains_key(row.id)
            && lookup.live[row.id].vector == Some(row.vector) by {
            lemma_live_rows(lookup.live, all, ids, ids.len(), row);
            assert(ids.contains(row.id) <==> selected->0.difference(dirty).contains(row.id));
        }
        lemma_changed(lookup, search, first);
        assert(lookup.run_rows(search) == first + lookup.run_rows(changes));
        assert forall|row: Row| #[trigger]
            lookup.run_rows(search).contains(row) <==> exact_candidate(
                lookup.live,
                lookup.filter,
                row,
            ) by {
            law_filtered_is_exact(
                lookup.live,
                g.documents,
                dirty,
                lookup.filter,
                selected->0,
                row,
            );
            assert(first.contains(row) <==> selected->0.contains(row.id) && !dirty.contains(row.id)
                && lookup.live.contains_key(row.id) && lookup.live[row.id].vector == Some(
                row.vector,
            ));
        }
    } else {
        let order = lookup.order;
        let n = probe_count(order.len(), lookup.probes);
        let keys = probed_keys(lookup.prefix, order, lookup.blocks, n);
        let first = block_rows(lookup.store, dirty, selected, keys, keys.len());
        let rows = probed_rows(g, order, n);
        lemma_probed_read(g, order, lookup.blocks, n);
        lemma_block_rows(lookup.store, dirty, selected, keys, keys.len());
        lemma_order_distinct(scores, order);
        lemma_probed_distinct(g, order, n);
        lemma_counted_distinct(dirty, selected, rows, rows.len());
        assert(rows.take(rows.len() as int) =~= rows);
        assert forall|row: Row| #[trigger] first.contains(row) <==> rows.contains(row)
            && row_counts(dirty, selected, row) by {
            lemma_counted(dirty, selected, rows, rows.len(), row);
        }
        lemma_changed(lookup, search, first);
        assert(lookup.run_rows(search) == first + lookup.run_rows(changes));
        assert forall|row: Row| #[trigger]
            lookup.run_rows(search).contains(row) <==> exact_candidate(
                lookup.live,
                lookup.filter,
                row,
            ) by {
            lemma_probed_all(g, scores, order, row);
            law_full_probe_is_exact(
                lookup.live,
                g.documents,
                dirty,
                lookup.filter,
                selected,
                g.training.assignment@,
                g.clusters(),
                row,
            );
            assert(first.contains(row) <==> rows.contains(row) && row_counts(dirty, selected, row));
        }
    }
}

proof fn lemma_offered(portions: Seq<Seq<Hit>>, k: nat)
    ensures
        offered(portions, k) == top_k(all_offers(portions), k),
    decreases portions.len(),
{
    if portions.len() == 0 {
        assert(top_k(all_offers(portions), k) =~= Seq::<Hit>::empty());
    } else {
        lemma_offered(portions.drop_last(), k);
        law_top_k_incremental(all_offers(portions.drop_last()), portions.last(), k);
    }
}

proof fn lemma_same_hits(a: Seq<Row>, b: Seq<Row>, score: spec_fn(Seq<u32>) -> u64, k: nat)
    requires
        ids_distinct(a),
        ids_distinct(b),
        forall|row: Row| #[trigger] a.contains(row) <==> b.contains(row),
    ensures
        top_k(hits_of(a, score), k) == top_k(hits_of(b, score), k),
{
    let x = hits_of(a, score);
    let y = hits_of(b, score);
    lemma_hits_distinct(a, score);
    lemma_hits_distinct(b, score);
    assert forall|hit: Hit| #[trigger] x.to_set().contains(hit) <==> y.to_set().contains(hit) by {
        if x.contains(hit) {
            let i = choose|i: int| 0 <= i < x.len() && x[i] == hit;
            assert(a.contains(a[i]));
            let j = choose|j: int| 0 <= j < b.len() && b[j] == a[i];
            assert(y[j] == hit);
        }
        if y.contains(hit) {
            let i = choose|i: int| 0 <= i < y.len() && y[i] == hit;
            assert(b.contains(b[i]));
            assert(a.contains(b[i]));
            let j = choose|j: int| 0 <= j < a.len() && a[j] == b[i];
            assert(x[j] == hit);
        }
    }
    assert(x.to_set() =~= y.to_set());
    law_same_candidates_same_answer(x, y, k);
}

proof fn lemma_hits_distinct(rows: Seq<Row>, score: spec_fn(Seq<u32>) -> u64)
    requires
        ids_distinct(rows),
    ensures
        hits_of(rows, score).no_duplicates(),
{
    let x = hits_of(rows, score);
    assert forall|i: int, j: int|
        0 <= i < x.len() && 0 <= j < x.len() && i != j implies x[i] != x[j] by {
        if i < j {
            assert(rows[i].id != rows[j].id);
        } else {
            assert(rows[j].id != rows[i].id);
        }
    }
}

/// The IDs of the indexed documents that a filter accepts.
pub open spec fn accepted_ids(g: Generation, filter: Filter) -> Set<Seq<char>> {
    Set::new(|id: Seq<char>| exists|i: int| accepted_document(g.documents, filter, id, i))
}

/// A vector search over an index ends with the same best hits as a scan of all
/// documents, if it probes every cluster or scores a selective filter by ID:
/// whatever changed since the index was built, in whatever portions the
/// candidates are offered, and whatever score a vector has. It scores by ID if
/// and only if there is a filter and at most `threshold` indexed documents pass
/// it.
pub proof fn law_indexed_search_is_exact(
    lookup: Lookup,
    g: Generation,
    scores: Seq<u64>,
    indexed: VectorSearch,
    exact: VectorSearch,
    threshold: usize,
    score: spec_fn(Seq<u32>) -> u64,
    indexed_offers: Seq<Seq<Hit>>,
    exact_offers: Seq<Seq<Hit>>,
)
    requires
        reads_generation(lookup, g, scores),
        lookup.live.dom().finite(),
        fresh(indexed),
        indexed.plan == indexed_plan(id_set(indexed.selected), threshold),
        unchanged(lookup.live, g.documents, indexed.dirty@.dom()),
        selection_exact(g.documents, lookup.filter, id_set(indexed.selected)),
        fresh(exact),
        exact.plan == Plan::ExactScan,
        exact.top_k == indexed.top_k,
        all_offers(indexed_offers) == hits_of(lookup.run_rows(indexed), score),
        all_offers(exact_offers) == hits_of(lookup.run_rows(exact), score),
    ensures
        indexed.plan == Plan::FilteredExact <==> !lookup.filter.unrestricted() && accepted_ids(
            g,
            lookup.filter,
        ).len() <= threshold,
        indexed.plan != Plan::FilteredExact ==> indexed.plan == Plan::CentroidAnn,
        indexed.plan == Plan::FilteredExact || g.clusters() <= lookup.probes ==> offered(
            indexed_offers,
            indexed.top_k as nat,
        ) == offered(exact_offers, exact.top_k as nat),
{
    let k = indexed.top_k as nat;
    let selected = id_set(indexed.selected);
    if selected is Some {
        assert(selected->0 =~= accepted_ids(g, lookup.filter));
    }
    if indexed.plan == Plan::FilteredExact || g.clusters() <= lookup.probes {
        lemma_indexed_run(lookup, g, scores, indexed, threshold);
        lemma_exact_run(lookup, exact);
        lemma_offered(indexed_offers, k);
        lemma_offered(exact_offers, k);
        lemma_same_hits(lookup.run_rows(indexed), lookup.run_rows(exact), score, k);
    }
}

/// The attributes that were read for hits are those of the documents.
pub open spec fn attributes_read(
    documents: Documents,
    best: Seq<Hit>,
    attributes: Seq<Option<TextMap<Json>>>,
) -> bool {
    &&& attributes.len() == best.len()
    &&& forall|i: int|
        0 <= i < best.len() ==> if documents.contains_key(best[i].id) {
            (#[trigger] attributes[i]) is Some && attributes[i]->0@ == documents[best[i].id]
        } else {
            attributes[i] is None
        }
}

/// Two lists of matches have the same IDs, scores and attributes.
pub open spec fn same_matches(a: Seq<SearchHit>, b: Seq<SearchHit>) -> bool {
    &&& a.len() == b.len()
    &&& forall|i: int|
        0 <= i < a.len() ==> (#[trigger] a[i]).id@ == b[i].id@ && a[i].score == b[i].score
            && a[i].attributes@ == b[i].attributes@
}

/// Matches with the same hits have the same attributes.
pub proof fn lemma_same_matches(
    documents: Documents,
    best: Seq<Hit>,
    first: Seq<Option<TextMap<Json>>>,
    second: Seq<Option<TextMap<Json>>>,
    a: Seq<SearchHit>,
    b: Seq<SearchHit>,
)
    requires
        attributes_read(documents, best, first),
        attributes_read(documents, best, second),
        matches_hits(a, best, first),
        matches_hits(b, best, second),
    ensures
        same_matches(a, b),
{
    assert forall|i: int| 0 <= i < a.len() implies (#[trigger] a[i]).id@ == b[i].id@ && a[i].score
        == b[i].score && a[i].attributes@ == b[i].attributes@ by {
        assert(b[i].id@ == best[i].id);
        assert(first[i] == Some(a[i].attributes) && second[i] == Some(b[i].attributes));
    }
}

proof fn lemma_best_live(
    lookup: Lookup,
    search: VectorSearch,
    score: spec_fn(Seq<u32>) -> u64,
    portions: Seq<Seq<Hit>>,
    k: nat,
    i: int,
)
    requires
        fresh(search),
        search.plan == Plan::ExactScan,
        lookup.live.dom().finite(),
        all_offers(portions) == hits_of(lookup.run_rows(search), score),
        0 <= i < offered(portions, k).len(),
    ensures
        lookup.live.contains_key(offered(portions, k)[i].id),
{
    broadcast use vstd::seq_lib::group_to_multiset_ensures;

    let offers = all_offers(portions);
    lemma_offered(portions, k);
    lemma_exact_run(lookup, search);
    lemma_ranking(offers);
    let hit = ranking(offers)[i];
    assert(offered(portions, k)[i] == hit);
    assert(ranking(offers).contains(hit));
    assert(ranking(offers).to_multiset().contains(hit));
    assert(offers.contains(hit));
    let j = choose|j: int| 0 <= j < offers.len() && offers[j] == hit;
    let row = lookup.run_rows(search)[j];
    assert(lookup.run_rows(search).contains(row));
    assert(exact_candidate(lookup.live, lookup.filter, row));
}

/// A query over an index answers as an exact query does, pending changes
/// included: the same IDs with the same scores and attributes in the same order.
/// Neither answer fails for want of a document. `lists` is what the scans of the
/// filter read of the index.
pub proof fn law_indexed_answer_is_exact(
    lookup: Lookup,
    g: Generation,
    scores: Seq<u64>,
    inputs: Set<Seq<u8>>,
    encoded: Seq<Vec<u8>>,
    lists: Seq<Vec<String>>,
    indexed: VectorSearch,
    exact: VectorSearch,
    threshold: usize,
    score: spec_fn(Seq<u32>) -> u64,
    indexed_offers: Seq<Seq<Hit>>,
    exact_offers: Seq<Seq<Hit>>,
    indexed_attributes: Seq<Option<TextMap<Json>>>,
    exact_attributes: Seq<Option<TextMap<Json>>>,
)
    requires
        reads_generation(lookup, g, scores),
        lookup.live.dom().finite(),
        lookup.filter.eq@.dom().finite(),
        lookup.filter.range@.dom().finite(),
        postings_reliable(
            inputs,
            g.documents,
            g.encoded,
            lookup.filter,
            expected_values(lookup.filter, encoded),
        ),
        lists_read(g, lookup.filter, encoded, lists),
        fresh(indexed),
        id_set(indexed.selected) == common(lists, lists.len()),
        indexed.plan == indexed_plan(id_set(indexed.selected), threshold),
        unchanged(lookup.live, g.documents, indexed.dirty@.dom()),
        indexed.plan == Plan::CentroidAnn ==> g.clusters() <= lookup.probes,
        fresh(exact),
        exact.plan == Plan::ExactScan,
        exact.top_k == indexed.top_k,
        all_offers(indexed_offers) == hits_of(lookup.run_rows(indexed), score),
        all_offers(exact_offers) == hits_of(lookup.run_rows(exact), score),
        attributes_read(
            live_attributes(lookup.live),
            offered(indexed_offers, indexed.top_k as nat),
            indexed_attributes,
        ),
        attributes_read(
            live_attributes(lookup.live),
            offered(exact_offers, exact.top_k as nat),
            exact_attributes,
        ),
    ensures
        all_present(indexed_attributes, indexed_attributes.len()),
        all_present(exact_attributes, exact_attributes.len()),
        forall|a: Seq<SearchHit>, b: Seq<SearchHit>|
            #![trigger same_matches(a, b)]
            matches_hits(a, offered(indexed_offers, indexed.top_k as nat), indexed_attributes)
                && matches_hits(b, offered(exact_offers, exact.top_k as nat), exact_attributes)
                ==> same_matches(a, b),
{
    law_filter_reads_select(g, inputs, lookup.filter, encoded, lists);
    law_indexed_search_is_exact(
        lookup,
        g,
        scores,
        indexed,
        exact,
        threshold,
        score,
        indexed_offers,
        exact_offers,
    );
    let k = indexed.top_k as nat;
    let best = offered(exact_offers, k);
    assert(indexed.plan != Plan::ExactScan);
    assert(offered(indexed_offers, k) == best);
    assert forall|i: int| 0 <= i < best.len() implies (#[trigger] indexed_attributes[i]) is Some
        && exact_attributes[i] is Some by {
        lemma_best_live(lookup, exact, score, exact_offers, k, i);
        assert(exact_attributes[i] is Some);
    }
    assert forall|i: int| 0 <= i < best.len() implies (#[trigger] exact_attributes[i]) is Some by {
        assert(indexed_attributes[i] is Some);
    }
    assert forall|a: Seq<SearchHit>, b: Seq<SearchHit>|
        #![trigger same_matches(a, b)]
        matches_hits(a, best, indexed_attributes) && matches_hits(
            b,
            best,
            exact_attributes,
        ) implies same_matches(a, b) by {
        lemma_same_matches(
            live_attributes(lookup.live),
            best,
            indexed_attributes,
            exact_attributes,
            a,
            b,
        );
    }
}

/// Whatever the number of probes, a search by clusters scores the rows of the
/// nearest clusters, as many as it probes, that have not changed since and that
/// the filter does not exclude, and the changed documents that pass the filter;
/// each once, and nothing else. All of them are candidates of an exact search.
pub proof fn law_probed_candidates(
    lookup: Lookup,
    g: Generation,
    scores: Seq<u64>,
    search: VectorSearch,
    row: Row,
)
    requires
        reads_generation(lookup, g, scores),
        fresh(search),
        search.plan == Plan::CentroidAnn,
        unchanged(lookup.live, g.documents, search.dirty@.dom()),
        selection_exact(g.documents, lookup.filter, id_set(search.selected)),
    ensures
        ids_distinct(lookup.run_rows(search)),
        lookup.run_rows(search).contains(row) <==> {
            ||| exists|i: int|
                0 <= i < lookup.order.len() && i < lookup.probes && g.cluster(
                    (#[trigger] lookup.order[i]) as int,
                ).contains(row) && !search.dirty@.contains_key(row.id) && (search.selected is Some
                    ==> search.selected->0@.contains_key(row.id))
            ||| search.dirty@.contains_key(row.id) && exact_candidate(
                lookup.live,
                lookup.filter,
                row,
            )
        },
        lookup.run_rows(search).contains(row) ==> exact_candidate(lookup.live, lookup.filter, row),
{
    let dirty = search.dirty@.dom();
    let selected = id_set(search.selected);
    let changes = VectorSearch { stage: Stage::Changes, ..search };
    let order = lookup.order;
    let n = probe_count(order.len(), lookup.probes);
    let keys = probed_keys(lookup.prefix, order, lookup.blocks, n);
    let first = block_rows(lookup.store, dirty, selected, keys, keys.len());
    let rows = probed_rows(g, order, n);
    lemma_probed_read(g, order, lookup.blocks, n);
    lemma_block_rows(lookup.store, dirty, selected, keys, keys.len());
    lemma_order_distinct(scores, order);
    lemma_probed_distinct(g, order, n);
    lemma_counted_distinct(dirty, selected, rows, rows.len());
    assert(rows.take(rows.len() as int) =~= rows);
    assert forall|r: Row| #[trigger] first.contains(r) <==> rows.contains(r) && row_counts(
        dirty,
        selected,
        r,
    ) by {
        lemma_counted(dirty, selected, rows, rows.len(), r);
    }
    lemma_changed(lookup, search, first);
    assert(lookup.run_rows(search) == first + lookup.run_rows(changes));
    lemma_probed_member(g, order, n, row);
    assert(first.contains(row) <==> rows.contains(row) && row_counts(dirty, selected, row));
    if rows.contains(row) && row_counts(dirty, selected, row) {
        let i = choose|i: int| 0 <= i < n && g.cluster((#[trigger] order[i]) as int).contains(row);
        assert(cluster_rows(
            g.rows(),
            g.training.assignment@,
            order[i] as int,
            g.rows().len(),
        ).contains(row));
        law_full_probe_is_exact(
            lookup.live,
            g.documents,
            dirty,
            lookup.filter,
            selected,
            g.training.assignment@,
            g.clusters(),
            row,
        );
    }
}

} // verus!
