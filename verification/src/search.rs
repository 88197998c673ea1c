//! Vector search: which documents are candidates under each plan, how clusters
//! are probed, and how pending changes overlay an index.
use vstd::prelude::*;
use vstd::string::*;
use vstd::utf8::*;

use crate::binary::{row_view, rows_view, Row};
use crate::double::{
    double_value, law_total_order_ranks_numbers, nan_double, number_key, number_key_spec,
    total_greater, total_order,
};
use crate::error::{corrupt, ErrorView, Result};
use crate::index::{
    cluster_block_key, cluster_block_key_of, copy_row, equality_list, equality_list_key,
    field_lists, field_prefix,
};
use crate::json::Json;
use crate::keys::{revision, revision_bytes};
use crate::model::{Filter, NumericRange, QueryResult, SearchHit, SearchMode};
use crate::outside::decode_text;
use crate::ranking::{hits, ranked_order, Hit, Ranked};
use crate::text::{copy_range, views};
use crate::textmap::{lemma_ordered, ordered, TextMap};

verus! {

// ---------------------------------------------------------------------------
// Pending changes
// ---------------------------------------------------------------------------
/// A key of the store with its value.
pub struct StoredRow {
    pub key: Vec<u8>,
    pub value: Vec<u8>,
}

/// The ID of a change record: what follows the prefix of its key.
pub open spec fn change_id(row: StoredRow, prefix: Seq<char>) -> Seq<u8> {
    row.key@.skip(encode_utf8(prefix).len() as int)
}

/// The text that the bytes encode.
pub open spec fn decoded_text(bytes: Seq<u8>) -> Seq<char> {
    choose|text: Seq<char>| #[trigger] encode_utf8(text) == bytes
}

pub open spec fn stored_revision_of(bytes: Seq<u8>) -> u64 {
    choose|n: u64| #[trigger] revision_bytes(n) == bytes
}

pub open spec fn change_verdict(row: StoredRow, prefix: Seq<char>, watermark: u64) -> std::result::Result<
    Option<Seq<char>>,
    ErrorView,
> {
    if row.value@.len() != 8 {
        Err(ErrorView::Corrupt("invalid revision"@))
    } else if stored_revision_of(row.value@) <= watermark {
        Ok(None)
    } else if !valid_utf8(change_id(row, prefix)) {
        Err(ErrorView::Corrupt("invalid change ID"@))
    } else {
        Ok(Some(decoded_text(change_id(row, prefix))))
    }
}

/// The IDs that changed after the watermark, among the first `n` records.
pub open spec fn pending_set(
    rows: Seq<StoredRow>,
    prefix: Seq<char>,
    watermark: u64,
    n: nat,
) -> std::result::Result<Set<Seq<char>>, ErrorView>
    decreases n,
{
    if n == 0 {
        Ok(Set::empty())
    } else {
        match pending_set(rows, prefix, watermark, (n - 1) as nat) {
            Err(e) => Err(e),
            Ok(ids) => match change_verdict(rows[n - 1], prefix, watermark) {
                Err(e) => Err(e),
                Ok(None) => Ok(ids),
                Ok(Some(id)) => Ok(ids.insert(id)),
            },
        }
    }
}

proof fn lemma_first_change_decides(
    rows: Seq<StoredRow>,
    prefix: Seq<char>,
    watermark: u64,
    i: nat,
    n: nat,
)
    requires
        i <= n,
        pending_set(rows, prefix, watermark, i) is Err,
    ensures
        pending_set(rows, prefix, watermark, n) == pending_set(rows, prefix, watermark, i),
    decreases n,
{
    if i < n {
        lemma_first_change_decides(rows, prefix, watermark, i, (n - 1) as nat);
    }
}

/// Reads the change records under a prefix: the IDs that changed after the
/// watermark of an index.
pub fn pending(rows: &Vec<StoredRow>, prefix: &str, watermark: u64) -> (result: Result<TextMap<()>>)
    requires
        forall|i: int|
            0 <= i < rows@.len() ==> encode_utf8(prefix@).len() <= (#[trigger] rows@[i]).key@.len(),
    ensures
        match result {
            Ok(ids) => pending_set(rows@, prefix@, watermark, rows@.len()) == Ok::<
                Set<Seq<char>>,
                ErrorView,
            >(ids@.dom()),
            Err(e) => pending_set(rows@, prefix@, watermark, rows@.len()) == Err::<
                Set<Seq<char>>,
                ErrorView,
            >(e@),
        },
{
    let skip = prefix.as_bytes().len();
    let mut ids: TextMap<()> = TextMap::new();
    assert(ids@.dom() =~= Set::<Seq<char>>::empty());
    let mut i: usize = 0;
    while i < rows.len()
        invariant
            i <= rows@.len(),
            skip == encode_utf8(prefix@).len(),
            forall|k: int|
                0 <= k < rows@.len() ==> encode_utf8(prefix@).len() <= (
                #[trigger] rows@[k]).key@.len(),
            pending_set(rows@, prefix@, watermark, i as nat) == Ok::<Set<Seq<char>>, ErrorView>(
                ids@.dom(),
            ),
        decreases rows@.len() - i,
    {
        assert(encode_utf8(prefix@).len() <= rows@[i as int].key@.len());
        let changed = match revision(rows[i].value.as_slice()) {
            Ok(n) => n,
            Err(e) => {
                proof {
                    lemma_first_change_decides(
                        rows@,
                        prefix@,
                        watermark,
                        (i + 1) as nat,
                        rows@.len(),
                    );
                }
                return Err(e);
            },
        };
        proof {
            let found = stored_revision_of(rows@[i as int].value@);
            assert(revision_bytes(changed) == rows@[i as int].value@);
            crate::keys::lemma_revision_injective(found, changed);
            crate::binary::lemma_le_len(changed as nat, 8);
        }
        if changed > watermark {
            let bytes = copy_range(rows[i].key.as_slice(), skip, rows[i].key.len());
            assert(bytes@ =~= change_id(rows@[i as int], prefix@));
            match decode_text(bytes) {
                Some(id) => {
                    proof {
                        let found = decoded_text(change_id(rows@[i as int], prefix@));
                        assert(encode_utf8(id@) == change_id(rows@[i as int], prefix@));
                        crate::text::lemma_encode_injective(found, id@);
                    }
                    let ghost before = ids@.dom();
                    let ghost name = id@;
                    let _ = ids.insert(id, ());
                    assert(ids@.dom() =~= before.insert(name));
                },
                None => {
                    proof {
                        lemma_first_change_decides(
                            rows@,
                            prefix@,
                            watermark,
                            (i + 1) as nat,
                            rows@.len(),
                        );
                    }
                    return Err(corrupt("invalid change ID"));
                },
            }
        }
        i += 1;
    }
    Ok(ids)
}

// ---------------------------------------------------------------------------
// Filters over postings
// ---------------------------------------------------------------------------
/// A range of keys to read: those under `prefix` whose rest is at least `low`
/// and, if there is a `high`, below it.
pub struct Scan {
    pub prefix: String,
    pub low: String,
    pub high: Option<String>,
}

pub struct ScanView {
    pub prefix: Seq<char>,
    pub low: Seq<char>,
    pub high: Option<Seq<char>>,
}

impl View for Scan {
    type V = ScanView;

    open spec fn view(&self) -> ScanView {
        ScanView {
            prefix: self.prefix@,
            low: self.low@,
            high: crate::outside::optional_text(self.high),
        }
    }
}

pub open spec fn scans(list: Seq<Scan>) -> Seq<ScanView> {
    list.map_values(|s: Scan| s@)
}

/// Reads the list of the documents whose attribute equals a value.
pub open spec fn equality_scan(prefix: Seq<char>, field: Seq<char>, encoded: Seq<u8>) -> ScanView {
    ScanView {
        prefix: equality_list(prefix, field, encoded) + seq!['/'],
        low: Seq::empty(),
        high: None,
    }
}

pub open spec fn window_low(range: NumericRange) -> Seq<char> {
    match range.gte {
        Some(lo) => number_key_spec(lo),
        None => Seq::empty(),
    }
}

pub open spec fn window_high(range: NumericRange) -> Seq<char> {
    match range.lte {
        Some(hi) => number_key_spec(hi) + seq!['~'],
        None => seq!['~'],
    }
}

/// Reads the lists of the numbers within a range.
pub open spec fn range_scan(prefix: Seq<char>, field: Seq<char>, range: NumericRange) -> ScanView {
    ScanView {
        prefix: field_lists(prefix, 'r', field),
        low: window_low(range),
        high: Some(window_high(range)),
    }
}

/// One read per predicate: equalities first, then ranges, each in field order.
/// `encoded` holds the encodings of the canonical expected values.
pub open spec fn filter_scans_spec(prefix: Seq<char>, filter: Filter, encoded: Seq<Vec<u8>>) -> Seq<
    ScanView,
> {
    let eqs = ordered(filter.eq@.dom());
    let ranges = ordered(filter.range@.dom());
    Seq::new(
        eqs.len() + ranges.len(),
        |i: int|
            if i < eqs.len() {
                equality_scan(prefix, eqs[i], encoded[i]@)
            } else {
                let field = ranges[i - eqs.len()];
                range_scan(prefix, field, filter.range@[field])
            },
    )
}

/// The reads that a filter needs.
pub fn filter_scans(prefix: &str, filter: &Filter, encoded: &Vec<Vec<u8>>) -> (list: Vec<Scan>)
    requires
        encoded@.len() == filter.eq@.dom().len(),
    ensures
        scans(list@) == filter_scans_spec(prefix@, *filter, encoded@),
{
    let eqs = filter.eq.len();
    let ranges = filter.range.len();
    let ghost eq_fields = filter.eq.keys();
    let ghost range_fields = filter.range.keys();
    let ghost target = filter_scans_spec(prefix@, *filter, encoded@);
    proof {
        lemma_ordered(eq_fields, filter.eq@.dom());
        lemma_ordered(range_fields, filter.range@.dom());
    }
    let mut list: Vec<Scan> = Vec::new();
    assert(scans(list@) =~= target.take(0));
    let mut i: usize = 0;
    while i < eqs
        invariant
            i <= eqs,
            eqs == eq_fields.len() == encoded@.len(),
            eq_fields == filter.eq.keys(),
            eq_fields == ordered(filter.eq@.dom()),
            target == filter_scans_spec(prefix@, *filter, encoded@),
            target.len() >= eqs,
            scans(list@) == target.take(i as int),
        decreases eqs - i,
    {
        let field = filter.eq.key(i);
        let mut key = equality_list_key(prefix, field.as_str(), encoded[i].as_slice());
        key.push('/');
        let scan = Scan { prefix: key, low: String::new(), high: None };
        let ghost added = scan@;
        let ghost before = scans(list@);
        proof {
            assert(added.prefix =~= target[i as int].prefix);
            assert(added.low =~= target[i as int].low);
        }
        list.push(scan);
        assert(scans(list@) =~= before.push(added));
        assert(target.take(i + 1) =~= target.take(i as int).push(target[i as int]));
        i += 1;
    }
    let mut k: usize = 0;
    while k < ranges
        invariant
            k <= ranges,
            ranges == range_fields.len(),
            eqs == eq_fields.len(),
            range_fields == filter.range.keys(),
            range_fields == ordered(filter.range@.dom()),
            eq_fields == ordered(filter.eq@.dom()),
            target == filter_scans_spec(prefix@, *filter, encoded@),
            target.len() == eqs + ranges,
            scans(list@) == target.take(eqs + k),
        decreases ranges - k,
    {
        let field = filter.range.key(k);
        let range = filter.range.value(k);
        let low = match range.gte {
            Some(lo) => number_key(lo),
            None => String::new(),
        };
        let mut high = match range.lte {
            Some(hi) => number_key(hi),
            None => String::new(),
        };
        high.push('~');
        let scan = Scan {
            prefix: field_prefix(prefix, 'r', field.as_str()),
            low,
            high: Some(high),
        };
        let ghost added = scan@;
        let ghost before = scans(list@);
        let ghost at = eqs + k;
        proof {
            assert(added.low =~= target[at].low);
            assert(added.high->0 =~= target[at].high->0);
        }
        list.push(scan);
        assert(scans(list@) =~= before.push(added));
        assert(target.take(at + 1) =~= target.take(at).push(target[at]));
        k += 1;
    }
    assert(target.take(target.len() as int) =~= target);
    list
}

pub open spec fn id_set(ids: Option<TextMap<()>>) -> Option<Set<Seq<char>>> {
    match ids {
        Some(map) => Some(map@.dom()),
        None => None,
    }
}

/// The members of all sets; no set restricts nothing.
pub open spec fn common(lists: Seq<Vec<String>>, n: nat) -> Option<Set<Seq<char>>>
    decreases n,
{
    if n == 0 {
        None
    } else {
        let ids = views(lists[n - 1]@).to_set();
        match common(lists, (n - 1) as nat) {
            None => Some(ids),
            Some(existing) => Some(existing.intersect(ids)),
        }
    }
}

fn set_of(ids: &Vec<String>) -> (set: TextMap<()>)
    ensures
        set@.dom() == views(ids@).to_set(),
{
    let ghost names = views(ids@);
    let mut set: TextMap<()> = TextMap::new();
    let mut i: usize = 0;
    assert(set@.dom() =~= names.take(0).to_set());
    while i < ids.len()
        invariant
            i <= ids@.len(),
            names == views(ids@),
            set@.dom() == names.take(i as int).to_set(),
        decreases ids@.len() - i,
    {
        let ghost before = set@.dom();
        let _ = set.insert(ids[i].clone(), ());
        proof {
            let front = names.take(i as int);
            let next = names.take(i + 1);
            assert(next =~= front.push(names[i as int]));
            assert forall|x: Seq<char>| #[trigger] next.to_set().contains(x) == front.to_set().insert(
                names[i as int],
            ).contains(x) by {
                lemma_push_contains(front, names[i as int], x);
            }
            assert(set@.dom() =~= next.to_set());
        }
        i += 1;
    }
    assert(names.take(i as int) =~= names);
    set
}

pub proof fn lemma_push_contains<T>(list: Seq<T>, item: T, x: T)
    ensures
        list.push(item).contains(x) == (list.contains(x) || x == item),
{
    let next = list.push(item);
    if next.contains(x) {
        let k = choose|k: int| 0 <= k < next.len() && next[k] == x;
        if k < list.len() {
            assert(list[k] == x);
        }
    }
    if list.contains(x) {
        let k = choose|k: int| 0 <= k < list.len() && list[k] == x;
        assert(next[k] == x);
    }
    assert(next[list.len() as int] == item);
}

/// Narrows the result of the predicates so far by one more.
pub fn intersect(result: &mut Option<TextMap<()>>, ids: TextMap<()>)
    ensures
        id_set(*final(result)) == match id_set(*old(result)) {
            None => Some(ids@.dom()),
            Some(existing) => Some(existing.intersect(ids@.dom())),
        },
{
    let mut existing: Option<TextMap<()>> = None;
    std::mem::swap(result, &mut existing);
    match existing {
        Some(map) => {
            let kept = keep(&map, &ids, true);
            assert(kept@.dom() =~= map@.dom().intersect(ids@.dom()));
            *result = Some(kept);
        },
        None => {
            *result = Some(ids);
        },
    }
}

/// The IDs of `map` that are (or are not) in `other`.
pub fn keep(map: &TextMap<()>, other: &TextMap<()>, inside: bool) -> (kept: TextMap<()>)
    ensures
        forall|id: Seq<char>| #[trigger]
            kept@.contains_key(id) == (map@.contains_key(id) && other@.contains_key(id) == inside),
{
    let count = map.len();
    let ghost names = map.keys();
    let mut kept: TextMap<()> = TextMap::new();
    let mut i: usize = 0;
    while i < count
        invariant
            i <= count,
            count == names.len(),
            names == map.keys(),
            forall|id: Seq<char>| #[trigger]
                kept@.contains_key(id) == (names.take(i as int).contains(id) && other@.contains_key(
                    id,
                ) == inside),
        decreases count - i,
    {
        let id = map.key(i);
        let ghost before = kept@;
        if other.contains(id.as_str()) == inside {
            let _ = kept.insert(id.clone(), ());
        }
        proof {
            let front = names.take(i as int);
            let name = names[i as int];
            assert(names.take(i + 1) =~= front.push(name));
            assert forall|x: Seq<char>| #[trigger] kept@.contains_key(x) == (names.take(
                i + 1,
            ).contains(x) && other@.contains_key(x) == inside) by {
                lemma_push_contains(front, name, x);
                assert(before.contains_key(x) == (front.contains(x) && other@.contains_key(x)
                    == inside));
            }
        }
        i += 1;
    }
    proof {
        assert(names.take(i as int) =~= names);
        assert forall|id: Seq<char>| #[trigger] kept@.contains_key(id) == (map@.contains_key(id)
            && other@.contains_key(id) == inside) by {
            assert(names.to_set().contains(id) == names.contains(id));
            assert(map@.dom().contains(id) == names.contains(id));
        }
    }
    map.check();
    kept
}

/// The IDs that satisfy every predicate, from the lists that were read.
pub fn filter_ids(lists: &Vec<Vec<String>>) -> (ids: Option<TextMap<()>>)
    ensures
        id_set(ids) == common(lists@, lists@.len()),
{
    let mut result: Option<TextMap<()>> = None;
    let mut i: usize = 0;
    while i < lists.len()
        invariant
            i <= lists@.len(),
            id_set(result) == common(lists@, i as nat),
        decreases lists@.len() - i,
    {
        let ids = set_of(&lists[i]);
        intersect(&mut result, ids);
        i += 1;
    }
    result
}

// ---------------------------------------------------------------------------
// Plans
// ---------------------------------------------------------------------------
/// How a vector query finds its candidates.
#[derive(Clone, Copy, Debug, PartialEq, Eq, Structural)]
pub enum Plan {
    /// Every document is looked at.
    ExactScan,
    /// The documents that a selective filter lists.
    FilteredExact,
    /// The rows of the clusters nearest to the query.
    CentroidAnn,
}

impl Plan {
    pub open spec fn title(self) -> Seq<char> {
        match self {
            Plan::ExactScan => "exact_scan"@,
            Plan::FilteredExact => "filtered_exact"@,
            Plan::CentroidAnn => "centroid_ann"@,
        }
    }

    pub fn name(&self) -> (name: String)
        ensures
            name@ == self.title(),
    {
        match self {
            Plan::ExactScan => "exact_scan".to_string(),
            Plan::FilteredExact => "filtered_exact".to_string(),
            Plan::CentroidAnn => "centroid_ann".to_string(),
        }
    }
}

/// Exact queries, and all queries before the first index, scan.
pub open spec fn scans_all(mode: SearchMode, indexed: bool) -> bool {
    mode == SearchMode::Exact || !indexed
}

pub fn must_scan(mode: SearchMode, indexed: bool) -> (scan: bool)
    ensures
        scan == scans_all(mode, indexed),
{
    mode == SearchMode::Exact || !indexed
}

/// With an index, a filter with few enough matches is scored by ID.
pub open spec fn indexed_plan(selected: Option<Set<Seq<char>>>, threshold: usize) -> Plan {
    match selected {
        Some(ids) => if ids.len() <= threshold {
            Plan::FilteredExact
        } else {
            Plan::CentroidAnn
        },
        None => Plan::CentroidAnn,
    }
}

pub fn choose_indexed_plan(selected: &Option<TextMap<()>>, threshold: usize) -> (plan: Plan)
    ensures
        plan == indexed_plan(id_set(*selected), threshold),
{
    match selected {
        Some(ids) => if ids.len() <= threshold {
            Plan::FilteredExact
        } else {
            Plan::CentroidAnn
        },
        None => Plan::CentroidAnn,
    }
}

// ---------------------------------------------------------------------------
// Clusters
// ---------------------------------------------------------------------------
/// Cluster `a` is probed before cluster `b`: larger scores first, then smaller
/// numbers.
pub open spec fn probed_before(scores: Seq<u64>, a: int, b: int) -> bool {
    total_order(scores[a]) > total_order(scores[b]) || (total_order(scores[a]) == total_order(
        scores[b],
    ) && a < b)
}

/// The clusters in the order in which they are probed.
pub open spec fn probe_order(scores: Seq<u64>, order: Seq<usize>) -> bool {
    &&& order.len() == scores.len()
    &&& forall|i: int| 0 <= i < order.len() ==> (#[trigger] order[i]) < scores.len()
    &&& forall|i: int, j: int|
        #![trigger order[i], order[j]]
        0 <= i < j < order.len() ==> probed_before(scores, order[i] as int, order[j] as int)
}

fn probes_before(scores: &Vec<u64>, a: usize, b: usize) -> (first: bool)
    requires
        a < scores@.len(),
        b < scores@.len(),
    ensures
        first == probed_before(scores@, a as int, b as int),
{
    if total_greater(scores[a], scores[b]) {
        true
    } else if total_greater(scores[b], scores[a]) {
        false
    } else {
        a < b
    }
}

/// Orders clusters by the score of their centroid.
pub fn rank_clusters(scores: &Vec<u64>) -> (order: Vec<usize>)
    ensures
        probe_order(scores@, order@),
{
    let mut order: Vec<usize> = Vec::new();
    let mut i: usize = 0;
    while i < scores.len()
        invariant
            i <= scores@.len(),
            order@.len() == i,
            forall|k: int| 0 <= k < order@.len() ==> (#[trigger] order@[k]) < i,
            forall|a: int, b: int|
                #![trigger order@[a], order@[b]]
                0 <= a < b < order@.len() ==> probed_before(
                    scores@,
                    order@[a] as int,
                    order@[b] as int,
                ),
        decreases scores@.len() - i,
    {
        let ghost start = order@;
        let mut at: usize = order.len();
        while at > 0 && probes_before(scores, i, order[at - 1])
            invariant
                at <= order@.len() == i < scores@.len(),
                order@ == start,
                forall|k: int| 0 <= k < order@.len() ==> (#[trigger] order@[k]) < i,
                forall|k: int|
                    at <= k < order@.len() ==> probed_before(
                        scores@,
                        i as int,
                        #[trigger] order@[k] as int,
                    ),
            decreases at,
        {
            at -= 1;
        }
        order.insert(at, i);
        proof {
            assert forall|a: int, b: int|
                #![trigger order@[a], order@[b]]
                0 <= a < b < order@.len() implies probed_before(
                scores@,
                order@[a] as int,
                order@[b] as int,
            ) by {
                let x = if a < at {
                    start[a]
                } else if a == at {
                    i
                } else {
                    start[a - 1]
                };
                let y = if b < at {
                    start[b]
                } else if b == at {
                    i
                } else {
                    start[b - 1]
                };
                assert(order@[a] == x && order@[b] == y);
                if b == at {
                    assert(!probed_before(scores@, i as int, start[at - 1] as int));
                    if a < at - 1 {
                        assert(probed_before(scores@, start[a] as int, start[at - 1] as int));
                    }
                }
            }
        }
        i += 1;
    }
    order
}

/// The keys of the first `n` blocks of a cluster.
pub open spec fn cluster_keys(prefix: Seq<char>, cluster: nat, n: nat) -> Seq<Seq<char>> {
    Seq::new(n, |b: int| cluster_block_key(prefix, cluster, b as nat))
}

/// The keys of all blocks of the first `n` clusters in probe order.
pub open spec fn probed_keys(
    prefix: Seq<char>,
    order: Seq<usize>,
    blocks: Seq<usize>,
    n: nat,
) -> Seq<Seq<char>>
    decreases n,
{
    if n == 0 {
        Seq::empty()
    } else {
        let cluster = order[n - 1];
        probed_keys(prefix, order, blocks, (n - 1) as nat) + cluster_keys(
            prefix,
            cluster as nat,
            blocks[cluster as int] as nat,
        )
    }
}

/// How many clusters are probed.
pub open spec fn probe_count(clusters: nat, probes: usize) -> nat {
    if clusters <= probes {
        clusters
    } else {
        probes as nat
    }
}

/// The blocks to read for a query that probes at most `probes` clusters.
pub fn probe_keys(prefix: &str, order: &Vec<usize>, blocks: &Vec<usize>, probes: usize) -> (keys: Vec<
    String,
>)
    requires
        forall|i: int| 0 <= i < order@.len() ==> (#[trigger] order@[i]) < blocks@.len(),
    ensures
        views(keys@) == probed_keys(
            prefix@,
            order@,
            blocks@,
            probe_count(order@.len(), probes),
        ),
{
    let count: usize = if order.len() <= probes {
        order.len()
    } else {
        probes
    };
    let mut keys: Vec<String> = Vec::new();
    assert(views(keys@) =~= probed_keys(prefix@, order@, blocks@, 0));
    let mut i: usize = 0;
    while i < count
        invariant
            i <= count <= order@.len(),
            forall|k: int| 0 <= k < order@.len() ==> (#[trigger] order@[k]) < blocks@.len(),
            views(keys@) == probed_keys(prefix@, order@, blocks@, i as nat),
        decreases count - i,
    {
        let cluster = order[i];
        let n = blocks[cluster];
        let ghost start = views(keys@);
        let mut b: usize = 0;
        assert(start + cluster_keys(prefix@, cluster as nat, 0) =~= start);
        while b < n
            invariant
                b <= n,
                views(keys@) == start + cluster_keys(prefix@, cluster as nat, b as nat),
            decreases n - b,
        {
            let ghost before = views(keys@);
            let key = cluster_block_key_of(prefix, cluster, b);
            let ghost added = key@;
            keys.push(key);
            assert(views(keys@) =~= before.push(added));
            assert(views(keys@) =~= start + cluster_keys(prefix@, cluster as nat, (b + 1) as nat));
            b += 1;
        }
        i += 1;
    }
    keys
}

/// How many blocks the first `n` clusters in probe order have.
pub open spec fn blocks_probed(order: Seq<usize>, blocks: Seq<usize>, n: nat) -> nat
    decreases n,
{
    if n == 0 {
        0
    } else {
        blocks_probed(order, blocks, (n - 1) as nat) + blocks[order[n - 1] as int] as nat
    }
}

proof fn lemma_probed_keys(prefix: Seq<char>, order: Seq<usize>, blocks: Seq<usize>, n: nat, m: nat)
    requires
        n <= m <= order.len(),
    ensures
        probed_keys(prefix, order, blocks, n).len() == blocks_probed(order, blocks, n),
        probed_keys(prefix, order, blocks, n).is_prefix_of(probed_keys(prefix, order, blocks, m)),
    decreases m,
{
    if n < m {
        lemma_probed_keys(prefix, order, blocks, n, (m - 1) as nat);
    } else if n > 0 {
        lemma_probed_keys(prefix, order, blocks, (n - 1) as nat, (n - 1) as nat);
    }
}

proof fn lemma_probed_key(
    prefix: Seq<char>,
    order: Seq<usize>,
    blocks: Seq<usize>,
    n: nat,
    key: Seq<char>,
)
    requires
        n <= order.len(),
    ensures
        probed_keys(prefix, order, blocks, n).contains(key) <==> exists|i: int, b: nat|
            0 <= i < n && b < blocks[order[i] as int] && key == #[trigger] cluster_block_key(
                prefix,
                order[i] as nat,
                b,
            ),
    decreases n,
{
    if n > 0 {
        let m = (n - 1) as nat;
        lemma_probed_key(prefix, order, blocks, m, key);
        let front = probed_keys(prefix, order, blocks, m);
        let own = cluster_keys(
            prefix,
            order[n - 1] as nat,
            blocks[order[n - 1] as int] as nat,
        );
        let all = probed_keys(prefix, order, blocks, n);
        assert(all == front + own);
        if all.contains(key) {
            let k = choose|k: int| 0 <= k < all.len() && all[k] == key;
            if k < front.len() {
                assert(front[k] == key);
                assert(front.contains(key));
            } else {
                let b = (k - front.len()) as nat;
                assert(key == cluster_block_key(prefix, order[n - 1] as nat, b));
            }
        }
        if front.contains(key) {
            let k = choose|k: int| 0 <= k < front.len() && front[k] == key;
            assert(all[k] == key);
        }
        if exists|b: nat|
            b < blocks[order[n - 1] as int] && key == #[trigger] cluster_block_key(
                prefix,
                order[n - 1] as nat,
                b,
            ) {
            let b = choose|b: nat|
                b < blocks[order[n - 1] as int] && key == #[trigger] cluster_block_key(
                    prefix,
                    order[n - 1] as nat,
                    b,
                );
            assert(own[b as int] == key);
            assert(all[(front.len() + b) as int] == key);
        }
    }
}

/// A query by clusters reads the nearest ones: every block of each of the first
/// `probes` clusters in probe order, or of all clusters if there are fewer, and
/// no other block. The centroids of the clusters that it leaves out score no
/// higher than those of the clusters that it reads. With more probes it reads
/// the same blocks first, and never fewer.
pub proof fn law_probes_read_the_nearest(
    prefix: Seq<char>,
    scores: Seq<u64>,
    order: Seq<usize>,
    blocks: Seq<usize>,
    probes: usize,
    more: usize,
)
    requires
        probe_order(scores, order),
        probes <= more,
    ensures
        ({
            let keys = probed_keys(prefix, order, blocks, probe_count(order.len(), probes));
            &&& forall|i: int, b: nat|
                0 <= i < order.len() && i < probes && b < blocks[order[i] as int] ==> keys.contains(
                    #[trigger] cluster_block_key(prefix, order[i] as nat, b),
                )
            &&& forall|key: Seq<char>| #[trigger]
                keys.contains(key) ==> exists|i: int, b: nat|
                    0 <= i < order.len() && i < probes && b < blocks[order[i] as int] && key
                        == #[trigger] cluster_block_key(prefix, order[i] as nat, b)
            &&& keys.len() == blocks_probed(
                order,
                blocks,
                if probes <= order.len() {
                    probes as nat
                } else {
                    order.len()
                },
            )
            &&& keys.is_prefix_of(
                probed_keys(prefix, order, blocks, probe_count(order.len(), more)),
            )
        }),
        forall|i: int, j: int|
            #![trigger order[i], order[j]]
            0 <= i < probes && probes <= j < order.len() && !nan_double(
                scores[order[i] as int],
            ) && !nan_double(scores[order[j] as int]) ==> double_value(scores[order[i] as int])
                >= double_value(scores[order[j] as int]),
{
    let n = probe_count(order.len(), probes);
    let m = probe_count(order.len(), more);
    let keys = probed_keys(prefix, order, blocks, n);
    lemma_probed_keys(prefix, order, blocks, n, m);
    assert forall|i: int, b: nat|
        0 <= i < order.len() && i < probes && b < blocks[order[i] as int] implies keys.contains(
        #[trigger] cluster_block_key(prefix, order[i] as nat, b),
    ) by {
        lemma_probed_key(
            prefix,
            order,
            blocks,
            n,
            cluster_block_key(prefix, order[i] as nat, b),
        );
    }
    assert forall|key: Seq<char>| #[trigger] keys.contains(key) implies exists|i: int, b: nat|
        0 <= i < order.len() && i < probes && b < blocks[order[i] as int] && key
            == #[trigger] cluster_block_key(prefix, order[i] as nat, b) by {
        lemma_probed_key(prefix, order, blocks, n, key);
    }
    assert forall|i: int, j: int|
        #![trigger order[i], order[j]]
        0 <= i < probes && probes <= j < order.len() && !nan_double(
            scores[order[i] as int],
        ) && !nan_double(scores[order[j] as int]) implies double_value(scores[order[i] as int])
        >= double_value(scores[order[j] as int]) by {
        let a = scores[order[i] as int];
        let b = scores[order[j] as int];
        assert(probed_before(scores, order[i] as int, order[j] as int));
        law_total_order_ranks_numbers(a, b);
        law_total_order_ranks_numbers(b, a);
    }
}

/// The clusters are probed by the scores of their centroids: each cluster once,
/// larger scores first, equal ones by number.
pub proof fn law_probe_order_by_score(scores: Seq<u64>, order: Seq<usize>, i: int, j: int)
    requires
        probe_order(scores, order),
        0 <= i < j < order.len(),
    ensures
        order.len() == scores.len(),
        order[i] < scores.len() && order[j] < scores.len() && order[i] != order[j],
        !nan_double(scores[order[i] as int]) && !nan_double(scores[order[j] as int])
            ==> double_value(scores[order[i] as int]) >= double_value(scores[order[j] as int]),
        scores[order[i] as int] == scores[order[j] as int] ==> order[i] < order[j],
{
    let a = scores[order[i] as int];
    let b = scores[order[j] as int];
    assert(probed_before(scores, order[i] as int, order[j] as int));
    law_total_order_ranks_numbers(a, b);
    law_total_order_ranks_numbers(b, a);
}

/// The members of a set in ascending order.
pub fn key_list(set: &TextMap<()>) -> (ids: Vec<String>)
    ensures
        views(ids@) == ordered(set@.dom()),
{
    let count = set.len();
    let ghost names = set.keys();
    proof {
        lemma_ordered(names, set@.dom());
    }
    let mut ids: Vec<String> = Vec::new();
    let mut i: usize = 0;
    while i < count
        invariant
            i <= count,
            count == names.len(),
            names == set.keys(),
            views(ids@) =~= names.take(i as int),
        decreases count - i,
    {
        let ghost before = views(ids@);
        let id = set.key(i).clone();
        let ghost added = id@;
        ids.push(id);
        assert(views(ids@) =~= before.push(added));
        assert(names.take(i + 1) =~= names.take(i as int).push(names[i as int]));
        i += 1;
    }
    assert(names.take(i as int) =~= names);
    ids
}

// ---------------------------------------------------------------------------
// A vector search
// ---------------------------------------------------------------------------
/// A search in progress. The caller reads documents and blocks, computes the
/// scores of the candidates, and offers them back.
pub struct VectorSearch {
    pub plan: Plan,
    pub stage: Stage,
    pub top_k: usize,
    pub dirty: TextMap<()>,
    pub selected: Option<TextMap<()>>,
    pub best: Vec<Ranked>,
    pub scanned: usize,
}

/// How far a search has come.
#[derive(Clone, Copy, Debug, PartialEq, Eq, Structural)]
pub enum Stage {
    Candidates,
    Changes,
    Done,
}

/// What a search needs next.
pub enum Step {
    /// Visit every document.
    Scan,
    /// Read the vectors of these documents; each that has one is a candidate.
    Listed(Vec<String>),
    /// Read the index blocks with these keys and visit their rows.
    Blocks(Vec<String>),
    /// Visit the current state of these changed documents.
    Changed(Vec<String>),
    /// Nothing: the best hits are known.
    Finish,
}

pub enum StepView {
    Scan,
    Listed(Seq<Seq<char>>),
    Blocks(Seq<Seq<char>>),
    Changed(Seq<Seq<char>>),
    Finish,
}

impl View for Step {
    type V = StepView;

    open spec fn view(&self) -> StepView {
        match self {
            Step::Scan => StepView::Scan,
            Step::Listed(ids) => StepView::Listed(views(ids@)),
            Step::Blocks(keys) => StepView::Blocks(views(keys@)),
            Step::Changed(ids) => StepView::Changed(views(ids@)),
            Step::Finish => StepView::Finish,
        }
    }
}

/// A row of an index block counts if its document has not changed since and the
/// filter does not exclude it.
pub open spec fn row_counts(dirty: Set<Seq<char>>, selected: Option<Set<Seq<char>>>, row: Row) -> bool {
    !dirty.contains(row.id) && (selected is Some ==> selected->0.contains(row.id))
}

pub open spec fn counted_rows(
    dirty: Set<Seq<char>>,
    selected: Option<Set<Seq<char>>>,
    rows: Seq<Row>,
    n: nat,
) -> Seq<Row>
    decreases n,
{
    if n == 0 {
        Seq::empty()
    } else {
        let front = counted_rows(dirty, selected, rows, (n - 1) as nat);
        if row_counts(dirty, selected, rows[n - 1]) {
            front.push(rows[n - 1])
        } else {
            front
        }
    }
}

impl VectorSearch {
    pub open spec fn valid(self) -> bool {
        ranked_order(hits(self.best@)) && self.best@.len() <= self.top_k
    }

    /// A search that looks at every document.
    pub fn scan_all(top_k: usize) -> (search: VectorSearch)
        ensures
            search.valid(),
            search.plan == Plan::ExactScan,
            search.stage == Stage::Candidates,
            search.top_k == top_k,
            search.dirty@.dom() == Set::<Seq<char>>::empty(),
            search.selected is None,
            search.best@.len() == 0,
            search.scanned == 0,
    {
        let dirty: TextMap<()> = TextMap::new();
        assert(dirty@.dom() =~= Set::<Seq<char>>::empty());
        VectorSearch {
            plan: Plan::ExactScan,
            stage: Stage::Candidates,
            top_k,
            dirty,
            selected: None,
            best: Vec::new(),
            scanned: 0,
        }
    }

    /// A search over an index: `dirty` are the IDs that changed after it was
    /// built, `selected` those that its postings list for the filter.
    pub fn indexed(
        top_k: usize,
        dirty: TextMap<()>,
        selected: Option<TextMap<()>>,
        threshold: usize,
    ) -> (search: VectorSearch)
        ensures
            search.valid(),
            search.plan == indexed_plan(id_set(selected), threshold),
            search.stage == Stage::Candidates,
            search.top_k == top_k,
            search.dirty == dirty,
            search.selected == selected,
            search.best@.len() == 0,
            search.scanned == 0,
    {
        let plan = choose_indexed_plan(&selected, threshold);
        VectorSearch {
            plan,
            stage: Stage::Candidates,
            top_k,
            dirty,
            selected,
            best: Vec::new(),
            scanned: 0,
        }
    }

    /// Looks at a primary document: a scanned one, or the current state of a
    /// changed ID (`None` if it was deleted). Returns whether it is a candidate,
    /// provided that it has a vector.
    pub fn visit(&mut self, filter: &Filter, attributes: Option<&TextMap<Json>>) -> (candidate: bool)
        requires
            old(self).scanned < usize::MAX,
        ensures
            candidate == match attributes {
                Some(a) => filter.accepts(a@),
                None => false,
            },
            final(self).scanned == old(self).scanned + 1,
            final(self).plan == old(self).plan,
            final(self).stage == old(self).stage,
            final(self).top_k == old(self).top_k,
            final(self).dirty == old(self).dirty,
            final(self).selected == old(self).selected,
            final(self).best == old(self).best,
    {
        self.scanned = self.scanned + 1;
        match attributes {
            Some(a) => filter.matches(a),
            None => false,
        }
    }

    /// The step that the search is at. An indexed search always visits the
    /// changed documents after its other candidates.
    pub open spec fn next_step(
        self,
        prefix: Seq<char>,
        order: Seq<usize>,
        blocks: Seq<usize>,
        probes: usize,
    ) -> StepView {
        match self.stage {
            Stage::Candidates => match self.plan {
                Plan::ExactScan => StepView::Scan,
                Plan::FilteredExact => StepView::Listed(
                    ordered(self.selected->0@.dom().difference(self.dirty@.dom())),
                ),
                Plan::CentroidAnn => StepView::Blocks(
                    probed_keys(prefix, order, blocks, probe_count(order.len(), probes)),
                ),
            },
            Stage::Changes => StepView::Changed(ordered(self.dirty@.dom())),
            Stage::Done => StepView::Finish,
        }
    }

    pub open spec fn next_stage(self) -> Stage {
        match self.stage {
            Stage::Candidates => match self.plan {
                Plan::ExactScan => Stage::Done,
                _ => Stage::Changes,
            },
            _ => Stage::Done,
        }
    }

    /// Moves on and says what to read. `order` are the clusters in probe order
    /// and `blocks` their sizes; both matter to a search by clusters only.
    pub fn next(
        &mut self,
        prefix: &str,
        order: &Vec<usize>,
        blocks: &Vec<usize>,
        probes: usize,
    ) -> (step: Step)
        requires
            old(self).plan == Plan::FilteredExact ==> old(self).selected is Some,
            forall|i: int| 0 <= i < order@.len() ==> (#[trigger] order@[i]) < blocks@.len(),
        ensures
            step@ == old(self).next_step(prefix@, order@, blocks@, probes),
            final(self).stage == old(self).next_stage(),
            final(self).scanned == old(self).scanned,
            final(self).plan == old(self).plan,
            final(self).top_k == old(self).top_k,
            final(self).dirty == old(self).dirty,
            final(self).selected == old(self).selected,
            final(self).best == old(self).best,
    {
        match self.stage {
            Stage::Candidates => match self.plan {
                Plan::ExactScan => {
                    self.stage = Stage::Done;
                    Step::Scan
                },
                Plan::FilteredExact => {
                    self.stage = Stage::Changes;
                    Step::Listed(self.listed())
                },
                Plan::CentroidAnn => {
                    self.stage = Stage::Changes;
                    Step::Blocks(probe_keys(prefix, order, blocks, probes))
                },
            },
            Stage::Changes => {
                self.stage = Stage::Done;
                Step::Changed(key_list(&self.dirty))
            },
            Stage::Done => Step::Finish,
        }
    }

    /// The IDs that a selective filter lists and that have not changed since:
    /// each is a candidate if it has a vector.
    pub fn listed(&self) -> (ids: Vec<String>)
        requires
            self.selected is Some,
        ensures
            views(ids@) == ordered(self.selected->0@.dom().difference(self.dirty@.dom())),
    {
        let empty: TextMap<()> = TextMap::new();
        let kept = match &self.selected {
            Some(ids) => keep(ids, &self.dirty, false),
            None => empty,
        };
        proof {
            assert(kept@.dom() =~= self.selected->0@.dom().difference(self.dirty@.dom())) by {
                assert forall|id: Seq<char>| #[trigger] kept@.dom().contains(id)
                    == self.selected->0@.dom().difference(self.dirty@.dom()).contains(id) by {
                    assert(kept@.contains_key(id) == kept@.dom().contains(id));
                }
            }
        }
        key_list(&kept)
    }

    /// Counts a listed ID as looked at.
    pub fn count(&mut self)
        requires
            old(self).scanned < usize::MAX,
        ensures
            final(self).scanned == old(self).scanned + 1,
            final(self).plan == old(self).plan,
            final(self).stage == old(self).stage,
            final(self).top_k == old(self).top_k,
            final(self).dirty == old(self).dirty,
            final(self).selected == old(self).selected,
            final(self).best == old(self).best,
    {
        self.scanned = self.scanned + 1;
    }

    /// Looks at the rows of an index block and returns the candidates.
    pub fn visit_block(&mut self, rows: &Vec<(String, Vec<u32>)>) -> (counted: Vec<
        (String, Vec<u32>),
    >)
        requires
            old(self).scanned + rows@.len() <= usize::MAX,
        ensures
            rows_view(counted@) == counted_rows(
                old(self).dirty@.dom(),
                id_set(old(self).selected),
                rows_view(rows@),
                rows@.len(),
            ),
            final(self).scanned == old(self).scanned + rows@.len(),
            final(self).plan == old(self).plan,
            final(self).stage == old(self).stage,
            final(self).top_k == old(self).top_k,
            final(self).dirty == old(self).dirty,
            final(self).selected == old(self).selected,
            final(self).best == old(self).best,
    {
        let ghost view = rows_view(rows@);
        let ghost dirty = self.dirty@.dom();
        let ghost selected = id_set(self.selected);
        let mut counted: Vec<(String, Vec<u32>)> = Vec::new();
        assert(rows_view(counted@) =~= counted_rows(dirty, selected, view, 0));
        let mut i: usize = 0;
        while i < rows.len()
            invariant
                i <= rows@.len(),
                view == rows_view(rows@),
                dirty == self.dirty@.dom(),
                selected == id_set(self.selected),
                rows_view(counted@) == counted_rows(dirty, selected, view, i as nat),
            decreases rows@.len() - i,
        {
            let id = rows[i].0.as_str();
            assert(view[i as int].id == id@);
            let listed = match &self.selected {
                Some(ids) => ids.contains(id),
                None => true,
            };
            if !self.dirty.contains(id) && listed {
                let ghost before = rows_view(counted@);
                let row = copy_row(&rows[i]);
                let ghost added = row_view(row);
                counted.push(row);
                assert(rows_view(counted@) =~= before.push(added));
                assert(view[i as int] == added);
            }
            i += 1;
        }
        self.scanned = self.scanned + rows.len();
        counted
    }

    /// Offers scored candidates.
    pub fn offer(&mut self, ids: &Vec<String>, scores: &Vec<u64>)
        requires
            ids@.len() == scores@.len(),
            old(self).valid(),
        ensures
            hits(final(self).best@) == crate::ranking::top_k(
                hits(old(self).best@) + crate::ranking::scored(views(ids@), scores@, ids@.len()),
                old(self).top_k as nat,
            ),
            final(self).valid(),
            final(self).scanned == old(self).scanned,
            final(self).plan == old(self).plan,
            final(self).stage == old(self).stage,
            final(self).top_k == old(self).top_k,
            final(self).dirty == old(self).dirty,
            final(self).selected == old(self).selected,
    {
        crate::ranking::score_rows(&mut self.best, ids, scores, self.top_k);
    }
}

// ---------------------------------------------------------------------------
// Results
// ---------------------------------------------------------------------------
/// Every hit is a document that exists.
pub open spec fn all_present(attributes: Seq<Option<TextMap<Json>>>, n: nat) -> bool {
    forall|i: int| 0 <= i < n ==> (#[trigger] attributes[i]) is Some
}

pub open spec fn matches_hits(matches: Seq<SearchHit>, best: Seq<Hit>, attributes: Seq<Option<TextMap<Json>>>) -> bool {
    &&& matches.len() == best.len()
    &&& forall|i: int|
        0 <= i < matches.len() ==> {
            let hit = #[trigger] matches[i];
            hit.id@ == best[i].id && hit.score == best[i].score && Some(hit.attributes) == attributes[i]
        }
}

/// Joins the ranked hits with the attributes that were read for them.
#[verifier::loop_isolation(false)]
pub fn hydrate(best: Vec<Ranked>, attributes: Vec<Option<TextMap<Json>>>) -> (result: Result<
    Vec<SearchHit>,
>)
    requires
        attributes@.len() == best@.len(),
    ensures
        match result {
            Ok(matches) => all_present(attributes@, attributes@.len()) && matches_hits(
                matches@,
                hits(best@),
                attributes@,
            ),
            Err(e) => !all_present(attributes@, attributes@.len()) && e@ == ErrorView::Corrupt(
                "index references a missing document"@,
            ),
        },
{
    let ghost ranked = hits(best@);
    let ghost given = attributes@;
    let mut attributes = attributes;
    let mut result: Vec<SearchHit> = Vec::new();
    let total = best.len();
    let mut i: usize = 0;
    while i < total
        invariant
            i <= total,
            total == best@.len() == given.len(),
            ranked == hits(best@),
            attributes@ =~= given.skip(i as int),
            all_present(given, i as nat),
            matches_hits(result@, ranked.take(i as int), given.take(i as int)),
        decreases total - i,
    {
        let next = attributes.remove(0);
        assert(next == given[i as int]);
        match next {
            Some(found) => {
                let hit = SearchHit {
                    id: best[i].id.clone(),
                    score: best[i].score,
                    attributes: found,
                };
                let ghost before = result@;
                result.push(hit);
                proof {
                    assert(ranked[i as int] == best@[i as int]@);
                    assert forall|k: int| 0 <= k < result@.len() implies {
                        let h = #[trigger] result@[k];
                        h.id@ == ranked.take(i + 1)[k].id && h.score == ranked.take(i + 1)[k].score
                            && Some(h.attributes) == given.take(i + 1)[k]
                    } by {
                        if k < i {
                            assert(result@[k] == before[k]);
                            assert(ranked.take(i as int)[k] == ranked.take(i + 1)[k]);
                            assert(given.take(i as int)[k] == given.take(i + 1)[k]);
                        }
                    }
                }
            },
            None => {
                assert(!all_present(given, given.len())) by {
                    assert(given[i as int] is None);
                }
                return Err(corrupt("index references a missing document"));
            },
        }
        i += 1;
    }
    assert(ranked.take(total as int) =~= ranked);
    assert(given.take(total as int) =~= given);
    Ok(result)
}

/// The answer to a vector query.
pub fn vector_result(
    search: VectorSearch,
    attributes: Vec<Option<TextMap<Json>>>,
    revision: u64,
    indexed_revision: u64,
) -> (result: Result<QueryResult>)
    requires
        attributes@.len() == search.best@.len(),
    ensures
        match result {
            Ok(answer) => {
                &&& all_present(attributes@, attributes@.len())
                &&& matches_hits(answer.matches@, hits(search.best@), attributes@)
                &&& answer.scanned_documents == search.scanned
                &&& answer.plan@ == search.plan.title()
                &&& answer.revision == revision
                &&& answer.indexed_revision == indexed_revision
            },
            Err(e) => !all_present(attributes@, attributes@.len()) && e@ == ErrorView::Corrupt(
                "index references a missing document"@,
            ),
        },
{
    let plan = search.plan.name();
    let scanned_documents = search.scanned;
    match hydrate(search.best, attributes) {
        Ok(matches) => Ok(
            QueryResult { matches, scanned_documents, plan, revision, indexed_revision },
        ),
        Err(e) => Err(e),
    }
}

// ---------------------------------------------------------------------------
// What searches decide
// ---------------------------------------------------------------------------
/// A query scans all documents if it asks for that, or if there is no index;
/// otherwise it uses the index.
pub proof fn law_exact_queries_scan(mode: SearchMode, indexed: bool)
    ensures
        scans_all(SearchMode::Exact, indexed),
        scans_all(mode, false),
        !scans_all(SearchMode::Auto, true),
        !scans_all(SearchMode::Ann, true),
{
}

/// The names of the plans.
pub proof fn law_plan_names()
    ensures
        Plan::ExactScan.title() == "exact_scan"@,
        Plan::FilteredExact.title() == "filtered_exact"@,
        Plan::CentroidAnn.title() == "centroid_ann"@,
{
}

/// Each match of an answer shows the ID, the score and the attributes of its hit.
pub proof fn law_matches_show_their_hits(
    matches: Seq<SearchHit>,
    best: Seq<Hit>,
    attributes: Seq<Option<TextMap<Json>>>,
    i: int,
)
    requires
        matches_hits(matches, best, attributes),
    ensures
        matches.len() == best.len(),
        0 <= i < matches.len() ==> matches[i].id@ == best[i].id && matches[i].score
            == best[i].score && attributes[i] == Some(matches[i].attributes),
        all_present(attributes, attributes.len()) <==> forall|k: int|
            0 <= k < attributes.len() ==> (#[trigger] attributes[k]) is Some,
{
}

/// The ID is on the list.
pub open spec fn on_list(list: Vec<String>, id: Seq<char>) -> bool {
    exists|k: int| 0 <= k < list@.len() && (#[trigger] list@[k])@ == id
}

/// The IDs that satisfy a filter are those on every list that was read for it.
pub proof fn law_lists_intersect(lists: Seq<Vec<String>>, n: nat, id: Seq<char>)
    requires
        n <= lists.len(),
    ensures
        common(lists, n) is None <==> n == 0,
        n > 0 ==> (common(lists, n)->0.contains(id) <==> forall|i: int|
            0 <= i < n ==> on_list(#[trigger] lists[i], id)),
    decreases n,
{
    if n > 0 {
        let m = (n - 1) as nat;
        law_lists_intersect(lists, m, id);
        let own = views(lists[n - 1]@);
        assert(own.to_set().contains(id) == own.contains(id));
        if own.contains(id) {
            let k = choose|k: int| 0 <= k < own.len() && own[k] == id;
            assert(lists[n - 1]@[k]@ == id);
        }
        if on_list(lists[n - 1], id) {
            let k = choose|k: int|
                0 <= k < lists[n - 1]@.len() && (#[trigger] lists[n - 1]@[k])@ == id;
            assert(own[k] == id);
        }
        assert(own.contains(id) == on_list(lists[n - 1], id));
    }
}

/// The sets that a search works with hold the keys of its maps.
pub proof fn law_id_sets(ids: TextMap<()>, id: Seq<char>)
    ensures
        id_set(None) is None,
        id_set(Some(ids)) is Some,
        id_set(Some(ids))->0.contains(id) <==> ids@.contains_key(id),
{
}

/// What a step asks for is in its fields, text by text.
pub proof fn law_steps_show_their_lists(list: Vec<String>, i: int)
    requires
        0 <= i < list@.len(),
    ensures
        Step::Listed(list)@ matches StepView::Listed(ids) && ids.len() == list@.len() && ids[i]
            == list@[i]@,
        Step::Blocks(list)@ matches StepView::Blocks(keys) && keys.len() == list@.len() && keys[i]
            == list@[i]@,
        Step::Changed(list)@ matches StepView::Changed(ids) && ids.len() == list@.len() && ids[i]
            == list@[i]@,
        Step::Scan@ is Scan,
        Step::Finish@ is Finish,
{
}

/// A change record that cannot be read is an error: one whose value is no
/// revision, and one of a pending change whose key holds no text. The first such
/// record decides.
pub proof fn law_damaged_changes_are_told(
    rows: Seq<StoredRow>,
    prefix: Seq<char>,
    watermark: u64,
    i: nat,
)
    requires
        i < rows.len(),
        pending_set(rows, prefix, watermark, i) is Ok,
    ensures
        rows[i as int].value@.len() != 8 ==> pending_set(rows, prefix, watermark, rows.len())
            == Err::<Set<Seq<char>>, ErrorView>(ErrorView::Corrupt("invalid revision"@)),
        rows[i as int].value@.len() == 8 && stored_revision_of(rows[i as int].value@) > watermark
            && !valid_utf8(rows[i as int].key@.skip(encode_utf8(prefix).len() as int))
            ==> pending_set(rows, prefix, watermark, rows.len()) == Err::<
            Set<Seq<char>>,
            ErrorView,
        >(ErrorView::Corrupt("invalid change ID"@)),
{
    if change_verdict(rows[i as int], prefix, watermark) is Err {
        lemma_first_change_decides(rows, prefix, watermark, i + 1, rows.len());
    }
}

/// Scans show the prefix and the bounds that they read between.
pub proof fn law_scans_show_their_bounds(list: Seq<Scan>, i: int)
    requires
        0 <= i < list.len(),
    ensures
        scans(list).len() == list.len(),
        scans(list)[i].prefix == list[i].prefix@,
        scans(list)[i].low == list[i].low@,
        scans(list)[i].high is Some <==> list[i].high is Some,
        list[i].high is Some ==> scans(list)[i].high->0 == list[i].high->0@,
{
}

} // verus!
