//! The gateway: where namespaces live, where requests go, and how the listings
//! of all shards become one.
use vstd::prelude::*;
use vstd::string::*;
use vstd::utf8::*;

use crate::access::{
    law_requests_are_about_their_namespace, law_segments, lemma_namespace_segments, namespace_path,
    path_rest, path_segments, request_namespace, segments,
};
use crate::config::ShardConfig;
use crate::error::{invalid, misconfigured, verdict, Error, ErrorView, Result, Verdict};
use crate::index::{digest, digest_text};
use crate::listing::{following, page_length};
use crate::model::{id_verdict, valid_id, validate_id, Namespace, Page};
use crate::outside::{optional_text, sha256};
use crate::text::{
    bytes_eq, decimal, hex, lemma_text_asymmetric, lemma_text_irreflexive, lemma_text_total,
    lemma_text_transitive, push_decimal, text_eq, text_less, text_lt, views,
};
use crate::textmap::ascending;

verus! {

// ---------------------------------------------------------------------------
// Placement
// ---------------------------------------------------------------------------
/// The weight of a shard for a namespace.
pub open spec fn weight(namespace: Seq<char>, shard: Seq<char>) -> Seq<char> {
    digest_text(encode_utf8(namespace + seq!['/'] + shard))
}

/// The shard with the greatest weight; the last of several.
pub open spec fn placement(namespace: Seq<char>, shards: Seq<Seq<char>>) -> int
    decreases shards.len(),
{
    if shards.len() <= 1 {
        0
    } else {
        let front = placement(namespace, shards.drop_last());
        if text_lt(weight(namespace, shards.last()), weight(namespace, shards[front])) {
            front
        } else {
            shards.len() - 1
        }
    }
}

pub open spec fn shard_ids(shards: Seq<ShardConfig>) -> Seq<Seq<char>> {
    shards.map_values(|s: ShardConfig| s.id@)
}

fn shard_weight(namespace: &str, shard: &str) -> (text: String)
    ensures
        text@ == weight(namespace@, shard@),
{
    let mut name = namespace.to_string();
    name.push('/');
    name.append(shard);
    assert(name@ =~= namespace@ + seq!['/'] + shard@);
    digest(name.as_str().as_bytes())
}

/// Stable rendezvous placement: shard IDs, not worker addresses, determine it.
pub fn shard_for<'a>(namespace: &str, shards: &'a [ShardConfig]) -> (shard: Option<&'a ShardConfig>)
    ensures
        match shard {
            Some(s) => shards@.len() > 0 && *s == shards@[placement(
                namespace@,
                shard_ids(shards@),
            )],
            None => shards@.len() == 0,
        },
{
    if shards.len() == 0 {
        return None;
    }
    let ghost ids = shard_ids(shards@);
    let mut best: usize = 0;
    let mut top = shard_weight(namespace, shards[0].id.as_str());
    let mut i: usize = 1;
    assert(ids.take(1).len() == 1);
    while i < shards.len()
        invariant
            1 <= i <= shards@.len(),
            best < i,
            ids == shard_ids(shards@),
            best == placement(namespace@, ids.take(i as int)),
            top@ == weight(namespace@, ids[best as int]),
        decreases shards@.len() - i,
    {
        let next = shard_weight(namespace, shards[i].id.as_str());
        proof {
            let now = ids.take(i + 1);
            assert(now.drop_last() =~= ids.take(i as int));
            assert(now[best as int] == ids[best as int]);
            assert(now.last() == ids[i as int]);
        }
        if !text_less(next.as_str(), top.as_str()) {
            best = i;
            top = next;
        }
        i += 1;
    }
    assert(ids.take(i as int) =~= ids);
    proof {
        lemma_placement(namespace@, ids);
    }
    Some(&shards[best])
}

/// The placement is a shard, and no other weighs more.
pub proof fn lemma_placement(namespace: Seq<char>, shards: Seq<Seq<char>>)
    requires
        shards.len() > 0,
    ensures
        0 <= placement(namespace, shards) < shards.len(),
        forall|i: int|
            0 <= i < shards.len() ==> !text_lt(
                weight(namespace, shards[placement(namespace, shards)]),
                weight(namespace, #[trigger] shards[i]),
            ),
        forall|i: int|
            placement(namespace, shards) < i < shards.len() ==> text_lt(
                weight(namespace, #[trigger] shards[i]),
                weight(namespace, shards[placement(namespace, shards)]),
            ),
    decreases shards.len(),
{
    let p = placement(namespace, shards);
    if shards.len() == 1 {
        lemma_text_irreflexive(weight(namespace, shards[0]));
    } else {
        let front = shards.drop_last();
        lemma_placement(namespace, front);
        let q = placement(namespace, front);
        let n = shards.len() - 1;
        let top = weight(namespace, shards[q]);
        let last = weight(namespace, shards[n]);
        assert(front[q] == shards[q]);
        lemma_text_total(last, top);
        assert forall|i: int| 0 <= i < shards.len() implies !text_lt(
            weight(namespace, shards[p]),
            weight(namespace, #[trigger] shards[i]),
        ) by {
            lemma_text_irreflexive(weight(namespace, shards[p]));
            if i < n {
                assert(front[i] == shards[i]);
                if p == n && text_lt(last, weight(namespace, shards[i])) {
                    if top != last {
                        lemma_text_transitive(top, last, weight(namespace, shards[i]));
                    }
                }
            } else if p == q {
                lemma_text_asymmetric(last, top);
            }
        }
        assert forall|i: int| p < i < shards.len() implies text_lt(
            weight(namespace, #[trigger] shards[i]),
            weight(namespace, shards[p]),
        ) by {
            if i < n {
                assert(front[i] == shards[i]);
            }
        }
    }
}

/// Placement is stable: removing a shard that does not hold a namespace leaves
/// the namespace where it is. (It depends on the name and the shard IDs alone,
/// so changing worker addresses moves nothing.)
pub proof fn law_placement_stable(namespace: Seq<char>, shards: Seq<Seq<char>>, removed: int)
    requires
        shards.len() > 0,
        0 <= removed < shards.len(),
        removed != placement(namespace, shards),
    ensures
        shards.remove(removed)[placement(namespace, shards.remove(removed))]
            == shards[placement(namespace, shards)],
{
    let p = placement(namespace, shards);
    let fewer = shards.remove(removed);
    lemma_placement(namespace, shards);
    assert(fewer.len() == shards.len() - 1);
    lemma_placement(namespace, fewer);
    let q = placement(namespace, fewer);
    let at = if p < removed {
        p
    } else {
        p - 1
    };
    assert(fewer[at] == shards[p]);
    let old_q = if q < removed {
        q
    } else {
        q + 1
    };
    assert(fewer[q] == shards[old_q]);
    if q < at {
        assert(text_lt(weight(namespace, fewer[at]), weight(namespace, fewer[q])));
        assert(!text_lt(weight(namespace, shards[p]), weight(namespace, shards[old_q])));
    }
    if at < q {
        assert(text_lt(weight(namespace, shards[old_q]), weight(namespace, shards[p])));
        assert(!text_lt(weight(namespace, fewer[q]), weight(namespace, fewer[at])));
    }
}

// ---------------------------------------------------------------------------
// Routing
// ---------------------------------------------------------------------------
/// What a request to the gateway is for.
pub enum Route {
    /// The merged listing of all namespaces.
    Listing,
    /// The shard that holds the namespace.
    Namespace(String),
}

pub enum RouteView {
    Listing,
    Namespace(Seq<char>),
}

impl View for Route {
    type V = RouteView;

    open spec fn view(&self) -> RouteView {
        match self {
            Route::Listing => RouteView::Listing,
            Route::Namespace(name) => RouteView::Namespace(name@),
        }
    }
}

pub open spec fn routed(method: Seq<char>, path: Seq<char>) -> std::result::Result<
    RouteView,
    ErrorView,
> {
    let parts = segments(path);
    if path == "/v1/namespaces"@ && method == "GET"@ {
        Ok(RouteView::Listing)
    } else if !(parts.len() >= 2 && parts[0] == "v1"@ && parts[1] == "namespaces"@) {
        Err(
            ErrorView::NotFound("gateway route not found; metrics and backups are per worker"@),
        )
    } else if parts.len() < 3 {
        Err(ErrorView::Invalid("namespace required"@))
    } else {
        match id_verdict(parts[2]) {
            Err(e) => Err(e),
            Ok(_) => Ok(RouteView::Namespace(parts[2])),
        }
    }
}

/// Decides where a request goes.
pub fn route(method: &str, path: &str) -> (result: Result<Route>)
    ensures
        match result {
            Ok(r) => routed(method@, path@) == Ok::<RouteView, ErrorView>(r@),
            Err(e) => routed(method@, path@) == Err::<RouteView, ErrorView>(e@),
        },
{
    if text_eq(path, "/v1/namespaces") && text_eq(method, "GET") {
        return Ok(Route::Listing);
    }
    let parts = path_segments(path);
    let ghost names = views(parts@);
    proof {
        if names.len() >= 2 {
            assert(names[0] == parts@[0]@ && names[1] == parts@[1]@);
        }
        if names.len() >= 3 {
            assert(names[2] == parts@[2]@);
        }
    }
    if parts.len() < 2 || !text_eq(parts[0].as_str(), "v1") || !text_eq(
        parts[1].as_str(),
        "namespaces",
    ) {
        return Err(
            Error::NotFound(
                "gateway route not found; metrics and backups are per worker".to_string(),
            ),
        );
    }
    if parts.len() < 3 {
        return Err(invalid("namespace required"));
    }
    match validate_id(parts[2].as_str()) {
        Ok(_) => Ok(Route::Namespace(parts[2].clone())),
        Err(e) => Err(e),
    }
}

/// Requests about a namespace go to that namespace, whatever the method and
/// whatever follows the name: all of them to the same shard, and to the
/// namespace that access is checked for. A name that is no valid ID is refused.
pub proof fn law_requests_reach_their_namespace(
    method: Seq<char>,
    name: Seq<char>,
    rest: Seq<char>,
)
    requires
        name.len() > 0,
        forall|i: int| 0 <= i < name.len() ==> #[trigger] name[i] != '/',
        path_rest(rest),
    ensures
        valid_id(name) ==> routed(method, namespace_path(name, rest)) == Ok::<RouteView, ErrorView>(
            RouteView::Namespace(name),
        ),
        !valid_id(name) ==> routed(method, namespace_path(name, rest)) is Err,
        request_namespace(namespace_path(name, rest)) == Some(name),
{
    let path = namespace_path(name, rest);
    reveal_strlit("/v1/namespaces/");
    reveal_strlit("/v1/namespaces");
    lemma_namespace_segments(name, rest);
    law_requests_are_about_their_namespace(method, name, rest);
    let parts = segments(path);
    assert(parts[0] == "v1"@ && parts[1] == "namespaces"@ && parts[2] == name);
    assert(path.len() > "/v1/namespaces"@.len());
}

/// Everything else that the gateway does: it lists namespaces, asks for the name
/// where the path stops short of one, and knows no other route.
pub proof fn law_other_routes(method: Seq<char>, path: Seq<char>)
    ensures
        routed(method, path) == Ok::<RouteView, ErrorView>(RouteView::Listing) <==> method
            == "GET"@ && path == "/v1/namespaces"@,
        segments(path) == seq!["v1"@, "namespaces"@] && !(method == "GET"@ && path
            == "/v1/namespaces"@) ==> routed(method, path) == Err::<RouteView, ErrorView>(
            ErrorView::Invalid("namespace required"@),
        ),
        segments(path).len() < 2 || segments(path)[0] != "v1"@ || segments(path)[1]
            != "namespaces"@ ==> routed(method, path) == Err::<RouteView, ErrorView>(
            ErrorView::NotFound("gateway route not found; metrics and backups are per worker"@),
        ),
        routed(method, path) matches Ok(RouteView::Namespace(name)) ==> segments(path).len() >= 3
            && segments(path)[2] == name && valid_id(name),
{
    let parts = segments(path);
    let head = seq!["v1"@, "namespaces"@];
    if parts == head {
        assert(parts[0] == head[0] && parts[1] == head[1]);
    }
    if path == "/v1/namespaces"@ {
        reveal_strlit("/v1/namespaces");
        reveal_strlit("v1");
        reveal_strlit("namespaces");
        let empty = Seq::<char>::empty();
        let tail = "v1"@.push('/') + "namespaces"@;
        assert(path =~= empty.push('/') + tail);
        law_segments(empty, tail);
        law_segments("v1"@, "namespaces"@);
        law_segments("namespaces"@, empty);
        assert(parts =~= head);
        assert(parts[0] == head[0] && parts[1] == head[1]);
    }
}

/// A namespace lives on a shard whose weight no other exceeds, the last of
/// several. The weight is the digest of the name and the ID of the shard with a
/// slash between them.
pub proof fn law_placement_heaviest(namespace: Seq<char>, shards: Seq<Seq<char>>, other: int)
    requires
        0 <= other < shards.len(),
    ensures
        ({
            let at = placement(namespace, shards);
            let digest_of = |shard: Seq<char>|
                hex(sha256(encode_utf8(namespace + seq!['/'] + shard)));
            &&& 0 <= at < shards.len()
            &&& !text_lt(digest_of(shards[at]), digest_of(shards[other]))
            &&& other > at ==> text_lt(digest_of(shards[other]), digest_of(shards[at]))
        }),
{
    lemma_placement(namespace, shards);
}

/// A text without the slashes at its end.
pub open spec fn trimmed(text: Seq<char>) -> Seq<char>
    decreases text.len(),
{
    if text.len() > 0 && text.last() == '/' {
        trimmed(text.drop_last())
    } else {
        text
    }
}

/// The origin of a worker, from its configured address.
pub fn worker_origin(address: &str) -> (origin: String)
    ensures
        origin@ == trimmed(address@),
{
    let mut origin = String::new();
    let mut slashes = String::new();
    let ghost text = address@;
    assert(origin@ + slashes@ =~= text.take(0));
    for c in it: address.chars()
        invariant
            it.seq() == text,
            origin@ + slashes@ == text.take(it.index()),
            origin@ == trimmed(text.take(it.index())),
    {
        let ghost i = it.index();
        let ghost kept = origin@;
        let ghost run = slashes@;
        proof {
            assert(text.take(i + 1).drop_last() =~= text.take(i));
            assert(text.take(i + 1).last() == c);
            assert(text.take(i + 1) =~= text.take(i).push(c));
        }
        if c == '/' {
            slashes.push(c);
            assert(origin@ + slashes@ =~= text.take(i + 1));
        } else {
            origin.append(slashes.as_str());
            origin.push(c);
            slashes = String::new();
            assert(origin@ =~= text.take(i + 1));
            assert(origin@ + slashes@ =~= text.take(i + 1));
        }
    }
    assert(text.take(text.len() as int) =~= text);
    origin
}

/// Where an active worker answers readiness probes.
pub fn ready_url(origin: &str) -> (url: String)
    ensures
        url@ == origin@ + "/readyz"@,
{
    let mut url = origin.to_string();
    url.append("/readyz");
    url
}

pub open spec fn listing_address(origin: Seq<char>, limit: nat, after: Option<Seq<char>>) -> Seq<char> {
    origin + "/v1/namespaces?limit="@ + decimal(limit) + match after {
        Some(id) => "&after="@ + id,
        None => Seq::empty(),
    }
}

/// Where a shard's listing is read.
pub fn listing_url(origin: &str, limit: usize, after: &Option<String>) -> (url: String)
    ensures
        url@ == listing_address(origin@, limit as nat, optional_text(*after)),
{
    let mut url = origin.to_string();
    url.append("/v1/namespaces?limit=");
    push_decimal(&mut url, limit as u64);
    let ghost base = url@;
    match after {
        Some(id) => {
            url.append("&after=");
            url.append(id.as_str());
            assert(url@ =~= base + ("&after="@ + id@));
        },
        None => {
            assert(url@ =~= base + Seq::<char>::empty());
        },
    }
    url
}

/// Where a backup is downloaded from.
pub fn export_url(address: &str) -> (url: String)
    ensures
        url@ == trimmed(address@) + "/v1/export"@,
{
    let mut url = worker_origin(address);
    url.append("/v1/export");
    url
}

/// Where a request is forwarded, with its path and query unchanged.
pub fn forward_url(origin: &str, path_and_query: &str) -> (url: String)
    ensures
        url@ == origin@ + path_and_query@,
{
    let mut url = origin.to_string();
    url.append(path_and_query);
    url
}

// ---------------------------------------------------------------------------
// Owners
// ---------------------------------------------------------------------------
/// Decides on the answer of a worker to a readiness probe. `identity` is the
/// database identity in a successful answer, `expected` the one that the shard
/// is pinned to. Returns whether the worker is the owner.
pub fn judge_worker(identity: &Option<String>, expected: &Option<String>) -> (result: Result<bool>)
    ensures
        match result {
            Ok(owner) => owner == (identity is Some) && (identity is Some && expected is Some
                ==> identity->0@ == expected->0@),
            Err(e) => identity is Some && expected is Some && identity->0@ != expected->0@ && e@
                == ErrorView::Config("worker database identity differs from shard topology"@),
        },
        match result {
            Ok(owner) => worker_judged(optional_text(*identity), optional_text(*expected)) == Some(
                owner,
            ),
            Err(_) => worker_judged(optional_text(*identity), optional_text(*expected)) is None,
        },
{
    match identity {
        Some(found) => {
            match expected {
                Some(pinned) => {
                    if text_eq(found.as_str(), pinned.as_str()) {
                        Ok(true)
                    } else {
                        Err(misconfigured("worker database identity differs from shard topology"))
                    }
                },
                None => Ok(true),
            }
        },
        None => Ok(false),
    }
}

/// A discovered owner is used for one second.
pub fn owner_fresh(seen: u64, now: u64) -> (fresh: bool)
    ensures
        fresh == (now - seen < 1000000000),
        fresh == still_fresh(seen, now),
{
    if now >= seen {
        now - seen < 1000000000
    } else {
        true
    }
}

/// A failed request, or a server error, forgets the owner: `status` is that of
/// the answer, if there was one.
pub fn forgets_owner(status: Option<u16>) -> (forget: bool)
    ensures
        forget == match status {
            Some(s) => 500 <= s < 600,
            None => true,
        },
        forget == loses_owner(status),
{
    match status {
        Some(s) => s >= 500 && s < 600,
        None => true,
    }
}

pub open spec fn upstream_verdict(name: Seq<char>, value: Option<String>) -> Verdict {
    match value {
        None => Err(ErrorView::Config("missing "@ + name)),
        Some(token) => if crate::access::token_valid(token@) {
            Ok(())
        } else {
            Err(ErrorView::Config("upstream token must be printable ASCII without spaces"@))
        },
    }
}

/// Checks the token that the gateway presents to workers.
pub fn check_upstream(name: &str, value: &Option<String>) -> (result: Result<()>)
    ensures
        verdict(result) == upstream_verdict(name@, *value),
{
    match value {
        None => {
            let mut message = "missing ".to_string();
            message.append(name);
            Err(Error::Config(message))
        },
        Some(token) => {
            if crate::access::is_token(token.as_str()) {
                Ok(())
            } else {
                Err(misconfigured("upstream token must be printable ASCII without spaces"))
            }
        },
    }
}

/// Where the placement of a gateway is pinned.
pub fn topology_path(prefix: &str) -> (path: String)
    ensures
        path@ == prefix@ + "/coordination/topology.json"@,
{
    let mut path = prefix.to_string();
    path.append("/coordination/topology.json");
    path
}

/// A pinned topology must be the one of this gateway.
pub fn check_topology(stored: &[u8], expected: &[u8]) -> (result: Result<()>)
    ensures
        verdict(result) == if stored@ == expected@ {
            Ok(())
        } else {
            Err(
                ErrorView::Config(
                    "gateway topology differs from stored placement; migrate data before changing shards"@,
                ),
            )
        },
{
    if bytes_eq(stored, expected) {
        Ok(())
    } else {
        Err(
            misconfigured(
                "gateway topology differs from stored placement; migrate data before changing shards",
            ),
        )
    }
}

// ---------------------------------------------------------------------------
// Merged listings
// ---------------------------------------------------------------------------
pub open spec fn sorted_by_name(items: Seq<Namespace>) -> bool {
    forall|i: int, j: int|
        #![trigger items[i], items[j]]
        0 <= i < j < items.len() ==> !text_lt(items[j].name@, items[i].name@)
}

/// The items of the first `n` pages.
pub open spec fn all_items(pages: Seq<Page<Namespace>>, n: nat) -> Seq<Namespace>
    decreases n,
{
    if n == 0 {
        Seq::empty()
    } else {
        all_items(pages, (n - 1) as nat) + pages[n - 1].items@
    }
}

pub open spec fn more_pages(pages: Seq<Page<Namespace>>) -> bool {
    exists|i: int| 0 <= i < pages.len() && (#[trigger] pages[i]).next_cursor is Some
}

/// The page is the front of the sorted items, with a cursor if anything follows.
pub open spec fn merged_page(
    page: Page<Namespace>,
    sorted: Seq<Namespace>,
    more: bool,
    limit: nat,
) -> bool {
    let shown = page_length(sorted.len(), limit);
    &&& page.items@ == sorted.take(shown as int)
    &&& optional_text(page.next_cursor) == if (more || sorted.len() > limit) && shown > 0 {
        Some(sorted[shown - 1].name@)
    } else {
        None
    }
}

/// How many items a name does not come before: where it is inserted.
pub open spec fn name_place(items: Seq<Namespace>, name: Seq<char>) -> int
    decreases items.len(),
{
    if items.len() == 0 {
        0
    } else if text_lt(name, items.last().name@) {
        name_place(items.drop_last(), name)
    } else {
        items.len() as int
    }
}

/// The items in ascending order of their names; equal names keep their order.
pub open spec fn by_name(items: Seq<Namespace>) -> Seq<Namespace>
    decreases items.len(),
{
    if items.len() == 0 {
        Seq::empty()
    } else {
        let front = by_name(items.drop_last());
        front.insert(name_place(front, items.last().name@), items.last())
    }
}

proof fn lemma_name_place(items: Seq<Namespace>, name: Seq<char>)
    requires
        sorted_by_name(items),
    ensures
        0 <= name_place(items, name) <= items.len(),
        forall|i: int|
            0 <= i < name_place(items, name) ==> !text_lt(name, (#[trigger] items[i]).name@),
        forall|i: int|
            name_place(items, name) <= i < items.len() ==> text_lt(name, (#[trigger] items[i]).name@),
    decreases items.len(),
{
    if items.len() > 0 {
        let n = items.len() - 1;
        let front = items.drop_last();
        assert forall|i: int, j: int|
            #![trigger front[i], front[j]]
            0 <= i < j < front.len() implies !text_lt(front[j].name@, front[i].name@) by {
            assert(front[i] == items[i] && front[j] == items[j]);
        }
        lemma_name_place(front, name);
        if text_lt(name, items[n].name@) {
            assert forall|i: int| 0 <= i < name_place(items, name) implies !text_lt(
                name,
                (#[trigger] items[i]).name@,
            ) by {
                assert(front[i] == items[i]);
            }
            assert forall|i: int|
                name_place(items, name) <= i < items.len() implies text_lt(
                name,
                (#[trigger] items[i]).name@,
            ) by {
                if i < n {
                    assert(front[i] == items[i]);
                }
            }
        } else {
            assert forall|i: int| 0 <= i < items.len() implies !text_lt(
                name,
                (#[trigger] items[i]).name@,
            ) by {
                if i < n && text_lt(name, items[i].name@) {
                    assert(!text_lt(items[n].name@, items[i].name@));
                    lemma_text_total(items[i].name@, items[n].name@);
                    if text_lt(items[i].name@, items[n].name@) {
                        lemma_text_transitive(name, items[i].name@, items[n].name@);
                    }
                }
            }
        }
    }
}

/// A merged listing holds exactly the items of the pages, in ascending order of
/// their names.
pub proof fn law_merged_listing_sorted(items: Seq<Namespace>)
    ensures
        sorted_by_name(by_name(items)),
        by_name(items).to_multiset() == items.to_multiset(),
    decreases items.len(),
{
    broadcast use vstd::seq_lib::group_to_multiset_ensures;

    if items.len() > 0 {
        let start = by_name(items.drop_last());
        let item = items.last();
        let at = name_place(start, item.name@);
        let after = by_name(items);
        law_merged_listing_sorted(items.drop_last());
        lemma_name_place(start, item.name@);
        assert(items =~= items.drop_last().push(item));
        assert forall|i: int, j: int|
            #![trigger after[i], after[j]]
            0 <= i < j < after.len() implies !text_lt(after[j].name@, after[i].name@) by {
            let x = if i < at {
                start[i]
            } else if i == at {
                item
            } else {
                start[i - 1]
            };
            let y = if j < at {
                start[j]
            } else if j == at {
                item
            } else {
                start[j - 1]
            };
            assert(after[i] == x && after[j] == y);
            if i == at {
                lemma_text_asymmetric(item.name@, start[j - 1].name@);
            }
        }
    } else {
        assert(by_name(items) =~= items);
    }
}

fn insert_by_name(items: &mut Vec<Namespace>, item: Namespace)
    ensures
        final(items)@ == old(items)@.insert(name_place(old(items)@, item.name@), item),
{
    let ghost start = items@;
    let mut at: usize = items.len();
    assert(start.take(at as int) =~= start);
    while at > 0 && text_less(item.name.as_str(), items[at - 1].name.as_str())
        invariant
            at <= items@.len(),
            items@ == start,
            name_place(start, item.name@) == name_place(start.take(at as int), item.name@),
        decreases at,
    {
        assert(start.take(at as int).drop_last() =~= start.take(at - 1));
        at -= 1;
    }
    proof {
        let front = start.take(at as int);
        if at > 0 {
            assert(front.last() == start[at - 1]);
        }
        assert(name_place(front, item.name@) == at);
    }
    items.insert(at, item);
}

/// Merges the pages of all shards into one.
#[verifier::loop_isolation(false)]
pub fn merge_pages(pages: Vec<Page<Namespace>>, limit: usize) -> (page: Page<Namespace>)
    ensures
        merged_page(
            page,
            by_name(all_items(pages@, pages@.len())),
            more_pages(pages@),
            limit as nat,
        ),
{
    let ghost given = pages@;
    let mut pages = pages;
    let total = pages.len();
    let mut more = false;
    let mut items: Vec<Namespace> = Vec::new();
    let mut i: usize = 0;
    proof {
        assert(given.skip(0) =~= given);
        assert(items@ =~= all_items(given, 0));
    }
    while i < total
        invariant
            i <= total == given.len(),
            pages@ == given.skip(i as int),
            more == exists|k: int| 0 <= k < i && (#[trigger] given[k]).next_cursor is Some,
            items@ == by_name(all_items(given, i as nat)),
        decreases total - i,
    {
        let page = pages.remove(0);
        proof {
            assert(page == given[i as int]);
            assert(pages@ =~= given.skip(i + 1));
        }
        if page.next_cursor.is_some() {
            more = true;
        }
        let ghost own = page.items@;
        let ghost base = all_items(given, i as nat);
        let mut rest = page.items;
        let count = rest.len();
        let mut k: usize = 0;
        assert(base + own.take(0) =~= base);
        assert(rest@ =~= own.skip(0));
        while k < count
            invariant
                k <= count == own.len(),
                rest@ == own.skip(k as int),
                items@ == by_name(base + own.take(k as int)),
            decreases count - k,
        {
            let item = rest.remove(0);
            insert_by_name(&mut items, item);
            proof {
                assert(item == own[k as int]);
                assert(rest@ =~= own.skip(k + 1));
                let next = base + own.take(k + 1);
                assert(next =~= (base + own.take(k as int)).push(item));
                assert(next.drop_last() =~= base + own.take(k as int));
            }
            k += 1;
        }
        assert(own.take(k as int) =~= own);
        i += 1;
    }
    let ghost sorted = items@;
    let all_shown = items.len() <= limit;
    if !all_shown {
        items.truncate(limit);
    }
    let shown = items.len();
    let next_cursor = if (more || !all_shown) && shown > 0 {
        Some(items[shown - 1].name.clone())
    } else {
        None
    };
    let page = Page { items, next_cursor };
    proof {
        assert(page.items@ =~= sorted.take(page_length(sorted.len(), limit as nat) as int));
        assert(merged_page(page, sorted, more_pages(given), limit as nat));
    }
    page
}

/// The names on some shard's page.
pub open spec fn on_some_page(pages: Seq<Seq<Seq<char>>>, name: Seq<char>) -> bool {
    exists|s: int| 0 <= s < pages.len() && (#[trigger] pages[s]).contains(name)
}

/// Some shard has more than fits its page, which then has a cursor.
pub open spec fn shards_continue(
    listings: Seq<Seq<Seq<char>>>,
    after: Option<Seq<char>>,
    limit: nat,
) -> bool {
    exists|s: int|
        0 <= s < listings.len() && following(#[trigger] listings[s], after).len() > limit
}

/// A merged page misses nothing: every name on any shard that follows the
/// request's cursor is shown, or follows the cursor that the merged page has.
pub proof fn law_merged_listing_covers(
    listings: Seq<Seq<Seq<char>>>,
    pages: Seq<Seq<Seq<char>>>,
    after: Option<Seq<char>>,
    limit: nat,
    sorted: Seq<Seq<char>>,
    shard: int,
    name: Seq<char>,
)
    requires
        limit >= 1,
        pages.len() == listings.len(),
        forall|s: int| 0 <= s < listings.len() ==> ascending(#[trigger] listings[s]),
        forall|s: int|
            0 <= s < pages.len() ==> (#[trigger] pages[s]) == following(
                listings[s],
                after,
            ).take(page_length(following(listings[s], after).len(), limit) as int),
        ascending(sorted),
        forall|x: Seq<char>| #[trigger] sorted.contains(x) <==> on_some_page(pages, x),
        0 <= shard < listings.len(),
        following(listings[shard], after).contains(name),
    ensures
        ({
            let shown = sorted.take(page_length(sorted.len(), limit) as int);
            shown.contains(name) || (shown.len() == limit && text_lt(shown[limit - 1], name) && (
            shards_continue(listings, after, limit) || sorted.len() > limit))
        }),
{
    let shown = sorted.take(page_length(sorted.len(), limit) as int);
    let all = following(listings[shard], after);
    let page = pages[shard];
    assert(ascending(listings[shard]));
    assert(page == all.take(page_length(all.len(), limit) as int));
    crate::listing::lemma_following_sorted(listings[shard], after);
    if page.contains(name) {
        assert(on_some_page(pages, name));
        assert(sorted.contains(name));
        let i = choose|i: int| 0 <= i < sorted.len() && sorted[i] == name;
        if i < shown.len() {
            assert(shown[i] == name);
        } else {
            assert(text_lt(sorted[limit - 1], sorted[i]));
        }
    } else {
        // the page was cut: it holds `limit` names, all before `name`
        let k = choose|k: int| 0 <= k < all.len() && all[k] == name;
        if k < page.len() {
            assert(page[k] == name);
        }
        assert(page.len() == limit);
        let last = page[limit - 1];
        assert(text_lt(all[limit - 1], all[k]));
        assert forall|j: int| 0 <= j < limit implies sorted.contains(#[trigger] page[j]) by {
            assert(page.contains(page[j]));
            assert(on_some_page(pages, page[j]));
        }
        lemma_pigeonhole(page, sorted, limit);
        if sorted[limit - 1] != last {
            lemma_text_transitive(sorted[limit - 1], last, name);
        }
    }
}

/// If an ascending list holds all names of another ascending list, its element
/// at a position does not come after the other's.
proof fn lemma_pigeonhole(page: Seq<Seq<char>>, sorted: Seq<Seq<char>>, limit: nat)
    requires
        limit >= 1,
        page.len() == limit,
        ascending(page),
        ascending(sorted),
        forall|j: int| 0 <= j < limit ==> sorted.contains(#[trigger] page[j]),
    ensures
        sorted.len() >= limit,
        sorted[limit - 1] == page[limit - 1] || text_lt(sorted[limit - 1], page[limit - 1]),
    decreases limit,
{
    let last = page[limit - 1];
    let at = choose|i: int| 0 <= i < sorted.len() && sorted[i] == last;
    if limit > 1 {
        let front = page.drop_last();
        assert(ascending(front)) by {
            assert forall|i: int, j: int|
                #![trigger front[i], front[j]]
                0 <= i < j < front.len() implies text_lt(front[i], front[j]) by {
                assert(front[i] == page[i] && front[j] == page[j]);
            }
        }
        assert forall|j: int| 0 <= j < limit - 1 implies sorted.contains(#[trigger] front[j]) by {
            assert(front[j] == page[j]);
        }
        lemma_pigeonhole(front, sorted, (limit - 1) as nat);
        let before = page[limit - 2];
        assert(front[limit - 2] == before);
        assert(text_lt(page[limit - 2], page[limit - 1]));
        // `last` stands after position limit - 2
        if at <= limit - 2 {
            if at < limit - 2 {
                assert(text_lt(sorted[at], sorted[limit - 2]));
                if sorted[limit - 2] != before {
                    lemma_text_transitive(last, sorted[limit - 2], before);
                }
                lemma_text_asymmetric(last, before);
            } else {
                if sorted[limit - 2] != before {
                    lemma_text_asymmetric(sorted[limit - 2], before);
                } else {
                    lemma_text_irreflexive(last);
                }
            }
        }
    }
    if at > limit - 1 {
        assert(text_lt(sorted[limit - 1], sorted[at]));
    }
}

/// A merged page shows the first names of all that the shards' pages hold, in
/// order, up to the limit. It has a cursor, the last name that it shows, exactly
/// if a shard has more or it could not show everything; what it does not show
/// does not come before the cursor.
pub proof fn law_merged_page_continues(pages: Seq<Page<Namespace>>, page: Page<Namespace>, limit: nat)
    requires
        limit >= 1,
        merged_page(page, by_name(all_items(pages, pages.len())), more_pages(pages), limit),
    ensures
        ({
            let all = all_items(pages, pages.len());
            let shown = page.items@;
            &&& shown.len() == if all.len() <= limit {
                all.len()
            } else {
                limit
            }
            &&& forall|i: int, j: int|
                #![trigger shown[i], shown[j]]
                0 <= i < j < shown.len() ==> !text_lt(shown[j].name@, shown[i].name@)
            &&& forall|i: int| 0 <= i < shown.len() ==> all.contains(#[trigger] shown[i])
            &&& page.next_cursor is Some <==> shown.len() > 0 && (all.len() > limit || exists|
                s: int,
            |
                0 <= s < pages.len() && (#[trigger] pages[s]).next_cursor is Some)
            &&& page.next_cursor is Some ==> page.next_cursor->0@ == shown.last().name@
            &&& forall|item: Namespace| #[trigger]
                all.contains(item) && !shown.contains(item) ==> page.next_cursor is Some
                    && !text_lt(item.name@, page.next_cursor->0@)
        }),
{
    broadcast use vstd::seq_lib::group_to_multiset_ensures;

    let all = all_items(pages, pages.len());
    let sorted = by_name(all);
    let shown = page.items@;
    law_merged_listing_sorted(all);
    assert(sorted.to_multiset().len() == all.to_multiset().len());
    assert(sorted.len() == all.len());
    assert forall|i: int| 0 <= i < shown.len() implies all.contains(#[trigger] shown[i]) by {
        assert(shown[i] == sorted[i]);
        assert(sorted.contains(sorted[i]));
        assert(sorted.to_multiset().contains(sorted[i]));
    }
    assert forall|i: int, j: int|
        #![trigger shown[i], shown[j]]
        0 <= i < j < shown.len() implies !text_lt(shown[j].name@, shown[i].name@) by {
        assert(shown[i] == sorted[i] && shown[j] == sorted[j]);
    }
    assert forall|item: Namespace| #[trigger]
        all.contains(item) && !shown.contains(item) implies page.next_cursor is Some && !text_lt(
        item.name@,
        page.next_cursor->0@,
    ) by {
        assert(all.to_multiset().contains(item));
        assert(sorted.to_multiset().contains(item));
        assert(sorted.contains(item));
        let k = choose|k: int| 0 <= k < sorted.len() && sorted[k] == item;
        if k < shown.len() {
            assert(shown[k] == item);
        }
        assert(!text_lt(sorted[k].name@, sorted[shown.len() - 1].name@));
    }
}

/// An origin is its address without the slashes at the end.
pub proof fn law_origins_have_no_slash_at_the_end(text: Seq<char>)
    ensures
        trimmed(text).len() > 0 ==> trimmed(text).last() != '/',
        trimmed(text).is_prefix_of(text),
        forall|i: int| trimmed(text).len() <= i < text.len() ==> #[trigger] text[i] == '/',
    decreases text.len(),
{
    if text.len() > 0 && text.last() == '/' {
        law_origins_have_no_slash_at_the_end(text.drop_last());
        assert(trimmed(text) =~= text.take(trimmed(text).len() as int));
        assert forall|i: int| trimmed(text).len() <= i < text.len() implies #[trigger] text[i]
            == '/' by {
            if i < text.len() - 1 {
                assert(text.drop_last()[i] == text[i]);
            }
        }
    } else {
        assert(text.take(text.len() as int) =~= text);
    }
}

/// The gateway needs an upstream token made of printable ASCII without spaces.
pub proof fn law_upstream_tokens_accepted(name: Seq<char>, value: Option<String>)
    ensures
        upstream_verdict(name, value) is Ok <==> value is Some && crate::access::token_valid(
            value->0@,
        ),
        value is None ==> upstream_verdict(name, value) == Err::<(), ErrorView>(
            ErrorView::Config("missing "@ + name),
        ),
{
}

/// A shard's listing is asked for with the limit in decimal digits and, if the
/// request has a cursor, with the cursor.
pub proof fn law_listing_addresses(origin: Seq<char>, limit: nat, after: Seq<char>)
    ensures
        listing_address(origin, limit, None) == origin + "/v1/namespaces?limit="@ + decimal(limit),
        listing_address(origin, limit, Some(after)) == origin + "/v1/namespaces?limit="@ + decimal(
            limit,
        ) + "&after="@ + after,
{
    assert(listing_address(origin, limit, None) =~= origin + "/v1/namespaces?limit="@ + decimal(
        limit,
    ));
    assert(listing_address(origin, limit, Some(after)) =~= origin + "/v1/namespaces?limit="@
        + decimal(limit) + "&after="@ + after);
}

// ---------------------------------------------------------------------------
// What is decided about owners
// ---------------------------------------------------------------------------
/// Whether a worker is the owner; nothing if it has the wrong database.
pub open spec fn worker_judged(identity: Option<Seq<char>>, expected: Option<Seq<char>>) -> Option<
    bool,
> {
    match (identity, expected) {
        (None, _) => Some(false),
        (Some(found), Some(pinned)) => if found == pinned {
            Some(true)
        } else {
            None
        },
        (Some(_), None) => Some(true),
    }
}

/// An owner that was seen at a time is still used.
pub open spec fn still_fresh(seen: u64, now: u64) -> bool {
    now < seen + 1000000000
}

/// A request with this outcome makes the gateway look for the owner again.
pub open spec fn loses_owner(status: Option<u16>) -> bool {
    status is None || status->0 / 100 == 5
}

/// A worker that answers is the owner unless the shard is pinned to a database and
/// the worker has another one, which is an error. One that does not answer is
/// not the owner.
pub proof fn law_owners_answer(identity: Seq<char>, pinned: Seq<char>, expected: Option<Seq<char>>)
    ensures
        worker_judged(Some(identity), None) == Some(true),
        worker_judged(Some(identity), Some(identity)) == Some(true),
        identity != pinned ==> worker_judged(Some(identity), Some(pinned)) is None,
        worker_judged(None, expected) == Some(false),
{
}

/// An owner is used for a second after it was seen, then looked for again.
pub proof fn law_owners_are_used_for_a_second(seen: u64, later: u64)
    requires
        seen <= later,
    ensures
        still_fresh(seen, later) <==> later - seen < 1000000000,
        still_fresh(seen, seen),
{
}

/// A request that fails, or that the worker answers with a server error, makes the
/// gateway forget the owner; any other answer does not.
pub proof fn law_server_errors_lose_the_owner(status: u16)
    ensures
        loses_owner(None),
        500 <= status && status <= 599 ==> loses_owner(Some(status)),
        status < 500 || status > 599 ==> !loses_owner(Some(status)),
{
}

/// A route shows the namespace that it leads to.
pub proof fn law_routes_show_their_namespace(name: String)
    ensures
        Route::Namespace(name)@ == RouteView::Namespace(name@),
        Route::Listing@ == RouteView::Listing,
{
}

/// The items of all pages are those of each of them, page after page.
pub proof fn law_all_pages_count(pages: Seq<Page<Namespace>>, n: nat, item: Namespace)
    requires
        n <= pages.len(),
    ensures
        all_items(pages, n).contains(item) <==> exists|s: int|
            0 <= s < n && (#[trigger] pages[s]).items@.contains(item),
        all_items(pages, 0).len() == 0,
        n > 0 ==> all_items(pages, n).len() == all_items(pages, (n - 1) as nat).len() + pages[n
            - 1].items@.len(),
    decreases n,
{
    if n > 0 {
        let m = (n - 1) as nat;
        law_all_pages_count(pages, m, item);
        crate::generation::lemma_concat_member(all_items(pages, m), pages[n - 1].items@, item);
    }
}

/// Shards are told apart by their IDs.
pub proof fn law_shards_have_their_ids(shards: Seq<ShardConfig>, i: int)
    requires
        0 <= i < shards.len(),
    ensures
        shard_ids(shards).len() == shards.len(),
        shard_ids(shards)[i] == shards[i].id@,
{
}

} // verus!
