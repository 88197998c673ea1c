//! Posting lists: items grouped by key, and lists cut into blocks.
use vstd::prelude::*;

use crate::text::views;
use crate::textmap::{list_of, listed, lists_of, TextMap};

verus! {

/// One occurrence of a term in a document's field.
#[derive(Debug)]
pub struct Posting {
    pub id: String,
    pub frequency: u32,
    pub length: u32,
}

pub struct PostingView {
    pub id: Seq<char>,
    pub frequency: u32,
    pub length: u32,
}

impl View for Posting {
    type V = PostingView;

    open spec fn view(&self) -> PostingView {
        PostingView { id: self.id@, frequency: self.frequency, length: self.length }
    }
}

impl Posting {
    pub fn copy(&self) -> (copy: Posting)
        ensures
            copy@ == self@,
    {
        Posting { id: self.id.clone(), frequency: self.frequency, length: self.length }
    }
}

pub open spec fn posting_views(items: Seq<Posting>) -> Seq<PostingView> {
    items.map_values(|p: Posting| p@)
}

// ---------------------------------------------------------------------------
// Grouping
// ---------------------------------------------------------------------------
pub struct Pair<T> {
    pub key: Seq<char>,
    pub item: T,
}

/// The items of each key, in order.
pub open spec fn grouped<T>(pairs: Seq<Pair<T>>) -> Map<Seq<char>, Seq<T>>
    decreases pairs.len(),
{
    if pairs.len() == 0 {
        Map::empty()
    } else {
        with_item(grouped(pairs.drop_last()), pairs.last().key, pairs.last().item)
    }
}

pub open spec fn with_item<T>(lists: Map<Seq<char>, Seq<T>>, key: Seq<char>, item: T) -> Map<
    Seq<char>,
    Seq<T>,
> {
    lists.insert(
        key,
        if lists.contains_key(key) {
            lists[key].push(item)
        } else {
            seq![item]
        },
    )
}

/// The items of the pairs that carry a key, in order.
pub open spec fn items_of<T>(pairs: Seq<Pair<T>>, key: Seq<char>) -> Seq<T>
    decreases pairs.len(),
{
    if pairs.len() == 0 {
        Seq::empty()
    } else if pairs.last().key == key {
        items_of(pairs.drop_last(), key).push(pairs.last().item)
    } else {
        items_of(pairs.drop_last(), key)
    }
}

/// Grouping loses nothing and adds nothing: each key has exactly its items.
pub proof fn lemma_grouped<T>(pairs: Seq<Pair<T>>, key: Seq<char>)
    ensures
        grouped(pairs).contains_key(key) == (items_of(pairs, key).len() > 0),
        grouped(pairs).contains_key(key) ==> grouped(pairs)[key] == items_of(pairs, key),
    decreases pairs.len(),
{
    if pairs.len() > 0 {
        lemma_grouped(pairs.drop_last(), key);
        if pairs.last().key == key {
            let front = items_of(pairs.drop_last(), key);
            if front.len() == 0 {
                assert(seq![pairs.last().item] =~= items_of(pairs, key));
            }
        }
    }
}

pub proof fn lemma_items_of_concat<T>(a: Seq<Pair<T>>, b: Seq<Pair<T>>, key: Seq<char>)
    ensures
        items_of(a + b, key) == items_of(a, key) + items_of(b, key),
    decreases b.len(),
{
    if b.len() == 0 {
        assert(a + b =~= a);
        assert(items_of(a, key) + items_of(b, key) =~= items_of(a, key));
    } else {
        lemma_items_of_concat(a, b.drop_last(), key);
        assert((a + b).drop_last() =~= a + b.drop_last());
        assert(items_of(a + b, key) =~= items_of(a, key) + items_of(b, key));
    }
}

/// An item is listed under a key exactly if a pair says so.
pub proof fn lemma_items_of_contains<T>(pairs: Seq<Pair<T>>, key: Seq<char>, item: T)
    ensures
        items_of(pairs, key).contains(item) <==> exists|i: int|
            0 <= i < pairs.len() && (#[trigger] pairs[i]).key == key && pairs[i].item == item,
    decreases pairs.len(),
{
    if pairs.len() > 0 {
        let front = pairs.drop_last();
        lemma_items_of_contains(front, key, item);
        let list = items_of(pairs, key);
        let before = items_of(front, key);
        if list.contains(item) {
            let k = choose|k: int| 0 <= k < list.len() && list[k] == item;
            if pairs.last().key == key && k == list.len() - 1 {
                assert(pairs[pairs.len() - 1].key == key);
            } else {
                assert(before[k] == item);
                assert(before.contains(item));
                let i = choose|i: int|
                    0 <= i < front.len() && (#[trigger] front[i]).key == key && front[i].item == item;
                assert(pairs[i] == front[i]);
            }
        }
        if exists|i: int|
            0 <= i < pairs.len() && (#[trigger] pairs[i]).key == key && pairs[i].item == item {
            let i = choose|i: int|
                0 <= i < pairs.len() && (#[trigger] pairs[i]).key == key && pairs[i].item == item;
            if i < front.len() {
                assert(front[i] == pairs[i]);
                assert(before.contains(item));
                let k = choose|k: int| 0 <= k < before.len() && before[k] == item;
                assert(list[k] == item);
            } else {
                assert(list[list.len() - 1] == item);
            }
        }
    }
}

pub open spec fn id_lists(lists: Map<Seq<char>, Vec<String>>) -> Map<Seq<char>, Seq<Seq<char>>> {
    lists.map_values(|v: Vec<String>| views(v@))
}

pub open spec fn posting_lists(lists: Map<Seq<char>, Vec<Posting>>) -> Map<
    Seq<char>,
    Seq<PostingView>,
> {
    lists.map_values(|v: Vec<Posting>| posting_views(v@))
}

/// Appends an ID to the list of a key.
pub fn add_id(lists: &mut TextMap<Vec<String>>, key: String, id: String)
    ensures
        id_lists(final(lists)@) == with_item(id_lists(old(lists)@), key@, id@),
{
    let ghost before = id_lists(lists@);
    let ghost k = key@;
    let ghost item = id@;
    let mut list: Vec<String> = match lists.remove(key.as_str()) {
        Some(list) => list,
        None => Vec::new(),
    };
    let ghost start = views(list@);
    list.push(id);
    assert(views(list@) =~= start.push(item));
    let _ = lists.insert(key, list);
    proof {
        if !before.contains_key(k) {
            assert(start.push(item) =~= seq![item]);
        }
        assert(id_lists(lists@) =~= with_item(before, k, item));
    }
}

/// Appends a posting to the list of a key.
pub fn add_posting(lists: &mut TextMap<Vec<Posting>>, key: String, posting: Posting)
    ensures
        posting_lists(final(lists)@) == with_item(posting_lists(old(lists)@), key@, posting@),
{
    let ghost before = posting_lists(lists@);
    let ghost k = key@;
    let ghost item = posting@;
    let mut list: Vec<Posting> = match lists.remove(key.as_str()) {
        Some(list) => list,
        None => Vec::new(),
    };
    let ghost start = posting_views(list@);
    list.push(posting);
    assert(posting_views(list@) =~= start.push(item));
    let _ = lists.insert(key, list);
    proof {
        if !before.contains_key(k) {
            assert(start.push(item) =~= seq![item]);
        }
        assert(posting_lists(lists@) =~= with_item(before, k, item));
    }
}

// ---------------------------------------------------------------------------
// Joining
// ---------------------------------------------------------------------------
/// The lists with each item taken by its view.
pub open spec fn viewed<T: View>(lists: Map<Seq<char>, Vec<T>>) -> Map<Seq<char>, Seq<T::V>> {
    lists.map_values(|v: Vec<T>| v@.map_values(|item: T| item@))
}

pub proof fn lemma_viewed_ids(lists: Map<Seq<char>, Vec<String>>)
    ensures
        viewed(lists) == id_lists(lists),
{
    assert forall|k: Seq<char>| lists.contains_key(k) implies #[trigger] viewed(lists)[k]
        == id_lists(lists)[k] by {
        assert(viewed(lists)[k] =~= id_lists(lists)[k]);
    }
    assert(viewed(lists) =~= id_lists(lists));
}

pub proof fn lemma_viewed_postings(lists: Map<Seq<char>, Vec<Posting>>)
    ensures
        viewed(lists) == posting_lists(lists),
{
    assert forall|k: Seq<char>| lists.contains_key(k) implies #[trigger] viewed(lists)[k]
        == posting_lists(lists)[k] by {
        assert(viewed(lists)[k] =~= posting_lists(lists)[k]);
    }
    assert(viewed(lists) =~= posting_lists(lists));
}

/// The parts hold, part after part, what the pairs list.
pub open spec fn parts_hold<T: View>(parts: Seq<TextMap<Vec<T>>>, pairs: Seq<Pair<T::V>>) -> bool {
    forall|k: Seq<char>|
        {
            &&& (#[trigger] lists_of(parts, k)).map_values(|item: T| item@) == items_of(pairs, k)
            &&& listed(parts, k) == (items_of(pairs, k).len() > 0)
        }
}

pub proof fn lemma_no_parts<T: View>(parts: Seq<TextMap<Vec<T>>>, pairs: Seq<Pair<T::V>>)
    requires
        parts.len() == 0,
        pairs.len() == 0,
    ensures
        parts_hold(parts, pairs),
{
    assert forall|k: Seq<char>|
        {
            &&& (#[trigger] lists_of(parts, k)).map_values(|item: T| item@) == items_of(pairs, k)
            &&& listed(parts, k) == (items_of(pairs, k).len() > 0)
        } by {
        assert(lists_of(parts, k).map_values(|item: T| item@) =~= items_of(pairs, k));
    }
}

pub proof fn lemma_parts_push<T: View>(
    parts: Seq<TextMap<Vec<T>>>,
    pairs: Seq<Pair<T::V>>,
    part: TextMap<Vec<T>>,
    own: Seq<Pair<T::V>>,
)
    requires
        parts_hold(parts, pairs),
        viewed(part@) == grouped(own),
    ensures
        parts_hold(parts.push(part), pairs + own),
{
    let next = parts.push(part);
    assert(next.drop_last() =~= parts);
    assert forall|k: Seq<char>|
        {
            &&& (#[trigger] lists_of(next, k)).map_values(|item: T| item@) == items_of(pairs + own, k)
            &&& listed(next, k) == (items_of(pairs + own, k).len() > 0)
        } by {
        lemma_items_of_concat(pairs, own, k);
        lemma_grouped(own, k);
        let front = lists_of(parts, k).map_values(|item: T| item@);
        assert(front == items_of(pairs, k));
        assert(part@.contains_key(k) == viewed(part@).contains_key(k));
        if part@.contains_key(k) {
            assert(viewed(part@)[k] == part@[k]@.map_values(|item: T| item@));
        }
        assert(list_of(part@, k).map_values(|item: T| item@) =~= items_of(own, k));
        assert(lists_of(next, k).map_values(|item: T| item@) =~= front + items_of(own, k));
        if listed(next, k) {
            let i = choose|i: int| 0 <= i < next.len() && (#[trigger] next[i])@.contains_key(k);
            if i < parts.len() {
                assert(parts[i]@.contains_key(k));
            }
        }
        if listed(parts, k) {
            let i = choose|i: int| 0 <= i < parts.len() && (#[trigger] parts[i])@.contains_key(k);
            assert(next[i]@.contains_key(k));
        }
        assert(next[parts.len() as int] == part);
    }
}

pub proof fn lemma_parts_joined<T: View>(
    parts: Seq<TextMap<Vec<T>>>,
    pairs: Seq<Pair<T::V>>,
    joined: Map<Seq<char>, Vec<T>>,
)
    requires
        parts_hold(parts, pairs),
        forall|k: Seq<char>| #[trigger] joined.contains_key(k) == listed(parts, k),
        forall|k: Seq<char>| #[trigger] list_of(joined, k) == lists_of(parts, k),
    ensures
        viewed(joined) == grouped(pairs),
{
    assert forall|k: Seq<char>| #[trigger]
        viewed(joined).contains_key(k) == grouped(pairs).contains_key(k) by {
        lemma_grouped(pairs, k);
        assert(lists_of(parts, k).map_values(|item: T| item@) == items_of(pairs, k));
        assert(joined.contains_key(k) == listed(parts, k));
    }
    assert forall|k: Seq<char>| #[trigger] viewed(joined).contains_key(k) implies viewed(joined)[k]
        == grouped(pairs)[k] by {
        lemma_grouped(pairs, k);
        assert(lists_of(parts, k).map_values(|item: T| item@) == items_of(pairs, k));
        assert(list_of(joined, k) == lists_of(parts, k));
        assert(joined.contains_key(k));
    }
    assert(viewed(joined) =~= grouped(pairs));
}

// ---------------------------------------------------------------------------
// Blocks
// ---------------------------------------------------------------------------
/// How many blocks of at most `size` items hold `n` items.
pub open spec fn block_count(n: nat, size: nat) -> nat {
    if size == 0 {
        0
    } else {
        (n + size - 1) as nat / size
    }
}

/// Block `b` of a list that is cut every `size` items.
pub open spec fn list_block<T>(list: Seq<T>, size: nat, b: nat) -> Seq<T> {
    let start = b * size;
    let end = if start + size <= list.len() {
        start + size
    } else {
        list.len()
    };
    list.subrange(start as int, end as int)
}

/// The first `n` blocks, one after the other.
pub open spec fn joined<T>(list: Seq<T>, size: nat, n: nat) -> Seq<T>
    decreases n,
{
    if n == 0 {
        Seq::empty()
    } else {
        joined(list, size, (n - 1) as nat) + list_block(list, size, (n - 1) as nat)
    }
}

pub proof fn lemma_block_count(n: nat, size: nat, b: nat)
    requires
        size > 0,
    ensures
        b < block_count(n, size) <==> b * size < n,
        block_count(n, size) * size >= n,
        block_count(n, size) <= n,
{
    let total = (n + size - 1) as int;
    let s = size as int;
    let q = total / s;
    vstd::arithmetic::div_mod::lemma_fundamental_div_mod(total, s);
    let r = total % s;
    assert(0 <= r < s);
    assert(q * s + r == total) by (nonlinear_arith)
        requires
            s * q + r == total,
    ;
    if b < q {
        assert(b * s <= (q - 1) * s) by (nonlinear_arith)
            requires
                b <= q - 1,
                s > 0,
        ;
        assert((q - 1) * s == q * s - s) by (nonlinear_arith);
    } else {
        assert(b * s >= q * s) by (nonlinear_arith)
            requires
                b >= q,
                s > 0,
        ;
    }
    assert(q <= n) by (nonlinear_arith)
        requires
            q * s + r == n + s - 1,
            0 <= r < s,
            s > 0,
            n >= 0,
    ;
}

proof fn lemma_joined<T>(list: Seq<T>, size: nat, n: nat)
    requires
        size > 0,
        n <= block_count(list.len(), size),
    ensures
        joined(list, size, n) == list.take(
            if n * size <= list.len() {
                (n * size) as int
            } else {
                list.len() as int
            },
        ),
    decreases n,
{
    if n == 0 {
        assert(joined(list, size, n) =~= list.take(0));
    } else {
        let m = (n - 1) as nat;
        lemma_joined(list, size, m);
        lemma_block_count(list.len(), size, m);
        assert(n * size == m * size + size) by (nonlinear_arith)
            requires
                n == m + 1,
        ;
        let end = if n * size <= list.len() {
            (n * size) as int
        } else {
            list.len() as int
        };
        assert(joined(list, size, n) =~= list.take(end));
    }
}

/// Reading all blocks of a list in order gives the list back.
pub proof fn law_blocks_join<T>(list: Seq<T>, size: nat)
    requires
        size > 0,
    ensures
        joined(list, size, block_count(list.len(), size)) == list,
{
    let n = block_count(list.len(), size);
    lemma_block_count(list.len(), size, 0);
    lemma_joined(list, size, n);
    assert(list.take(list.len() as int) =~= list);
    if n * size <= list.len() {
        assert(n * size == list.len());
    }
}

/// A list of `n` items is cut into blocks that all have items, none more than
/// `size`, and only the last one fewer.
pub proof fn law_blocks_are_full<T>(list: Seq<T>, size: nat, b: nat)
    requires
        size > 0,
        b < block_count(list.len(), size),
    ensures
        0 < list_block(list, size, b).len() <= size,
        b + 1 < block_count(list.len(), size) ==> list_block(list, size, b).len() == size,
        forall|i: int|
            0 <= i < list_block(list, size, b).len() ==> (#[trigger] list_block(list, size, b)[i])
                == list[b * size + i],
{
    lemma_block_count(list.len(), size, b);
    assert(b * size >= 0) by (nonlinear_arith);
    if b + 1 < block_count(list.len(), size) {
        lemma_block_count(list.len(), size, b + 1);
        assert((b + 1) * size == b * size + size) by (nonlinear_arith);
    }
}

/// The list of a key holds the items that were paired with it, in their order: an
/// item more for each pair with the key, and nothing for other pairs.
pub proof fn law_lists_gather<T>(pairs: Seq<Pair<T>>, pair: Pair<T>, key: Seq<char>)
    ensures
        !grouped(Seq::<Pair<T>>::empty()).contains_key(key),
        key != pair.key ==> grouped(pairs.push(pair)).contains_key(key) == grouped(
            pairs,
        ).contains_key(key) && (grouped(pairs).contains_key(key) ==> grouped(
            pairs.push(pair),
        )[key] == grouped(pairs)[key]),
        grouped(pairs.push(pair)).contains_key(pair.key),
        grouped(pairs.push(pair))[pair.key] == if grouped(pairs).contains_key(pair.key) {
            grouped(pairs)[pair.key].push(pair.item)
        } else {
            seq![pair.item]
        },
{
    assert(pairs.push(pair).drop_last() =~= pairs);
}

/// Postings show the ID, how often the term occurs, and how long the text is.
pub proof fn law_postings_show_their_fields(items: Seq<Posting>, i: int)
    requires
        0 <= i < items.len(),
    ensures
        posting_views(items).len() == items.len(),
        posting_views(items)[i] == (PostingView {
            id: items[i].id@,
            frequency: items[i].frequency,
            length: items[i].length,
        }),
{
}

} // verus!
