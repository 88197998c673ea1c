//! A map from text to values, kept in ascending key order.
use vstd::prelude::*;

use crate::text::{
    lemma_text_asymmetric, lemma_text_irreflexive, lemma_text_total, lemma_text_transitive,
    text_eq, text_less, text_lt,
};

verus! {

/// Values by text key, in ascending byte order of the keys.
#[derive(Debug)]
pub struct TextMap<V> {
    entries: Vec<(String, V)>,
}

/// Strictly ascending, hence without duplicates.
pub open spec fn ascending(keys: Seq<Seq<char>>) -> bool {
    forall|i: int, j: int|
        #![trigger keys[i], keys[j]]
        0 <= i < j < keys.len() ==> text_lt(keys[i], keys[j])
}

pub proof fn lemma_ascending_distinct(keys: Seq<Seq<char>>)
    requires
        ascending(keys),
    ensures
        keys.no_duplicates(),
{
    assert forall|i: int, j: int| 0 <= i < keys.len() && 0 <= j < keys.len() && i != j implies keys[i]
        != keys[j] by {
        if i < j {
            lemma_text_asymmetric(keys[i], keys[j]);
        } else {
            lemma_text_asymmetric(keys[j], keys[i]);
        }
    }
}

/// Two ascending lists with the same members are the same list.
pub proof fn lemma_ascending_unique(a: Seq<Seq<char>>, b: Seq<Seq<char>>)
    requires
        ascending(a),
        ascending(b),
        a.to_set() == b.to_set(),
    ensures
        a == b,
    decreases a.len(),
{
    lemma_ascending_distinct(a);
    lemma_ascending_distinct(b);
    a.unique_seq_to_set();
    b.unique_seq_to_set();
    if a.len() > 0 {
        let x = a.last();
        let y = b.last();
        assert(a.to_set().contains(y)) by {
            assert(b.to_set().contains(b[b.len() - 1]));
        }
        assert(b.to_set().contains(x)) by {
            assert(a.to_set().contains(a[a.len() - 1]));
        }
        let i = choose|i: int| 0 <= i < a.len() && a[i] == y;
        let j = choose|j: int| 0 <= j < b.len() && b[j] == x;
        if i < a.len() - 1 {
            assert(text_lt(a[i], a[a.len() - 1]));
            if j < b.len() - 1 {
                assert(text_lt(b[j], b[b.len() - 1]));
                lemma_text_asymmetric(x, y);
            }
            lemma_text_irreflexive(x);
        }
        assert(x == y);
        let a0 = a.drop_last();
        let b0 = b.drop_last();
        assert(a0.to_set() =~= b0.to_set()) by {
            assert forall|k: Seq<char>| a0.to_set().contains(k) == b0.to_set().contains(k) by {
                if a0.contains(k) {
                    let m = choose|m: int| 0 <= m < a0.len() && a0[m] == k;
                    assert(a[m] == k && k != x);
                    assert(a.to_set().contains(k));
                    assert(b.contains(k));
                    let n = choose|n: int| 0 <= n < b.len() && b[n] == k;
                    assert(n < b.len() - 1);
                    assert(b0[n] == k);
                }
                if b0.contains(k) {
                    let m = choose|m: int| 0 <= m < b0.len() && b0[m] == k;
                    assert(b[m] == k && k != y);
                    assert(b.to_set().contains(k));
                    assert(a.contains(k));
                    let n = choose|n: int| 0 <= n < a.len() && a[n] == k;
                    assert(n < a.len() - 1);
                    assert(a0[n] == k);
                }
            }
        }
        assert(ascending(a0));
        assert(ascending(b0));
        lemma_ascending_unique(a0, b0);
        assert(a =~= a0.push(x));
        assert(b =~= b0.push(y));
    } else {
        assert(a =~= b);
    }
}

/// The members of a finite set of texts in ascending order.
pub open spec fn ordered(keys: Set<Seq<char>>) -> Seq<Seq<char>> {
    choose|ks: Seq<Seq<char>>| ascending(ks) && #[trigger] ks.to_set() == keys
}

pub proof fn lemma_ordered(ks: Seq<Seq<char>>, keys: Set<Seq<char>>)
    requires
        ascending(ks),
        ks.to_set() == keys,
    ensures
        ordered(keys) == ks,
{
    assert(ascending(ks) && ks.to_set() == keys);
    lemma_ascending_unique(ordered(keys), ks);
}

spec fn inserted(keys: Seq<Seq<char>>, key: Seq<char>) -> Seq<Seq<char>>
    decreases keys.len(),
{
    if keys.len() == 0 || text_lt(keys.last(), key) {
        keys.push(key)
    } else {
        inserted(keys.drop_last(), key).push(keys.last())
    }
}

proof fn lemma_inserted(keys: Seq<Seq<char>>, key: Seq<char>)
    requires
        ascending(keys),
        !keys.contains(key),
    ensures
        ascending(inserted(keys, key)),
        inserted(keys, key).to_set() == keys.to_set().insert(key),
        inserted(keys, key).len() == keys.len() + 1,
    decreases keys.len(),
{
    let after = inserted(keys, key);
    if keys.len() == 0 || text_lt(keys.last(), key) {
        assert forall|i: int, j: int|
            #![trigger after[i], after[j]]
            0 <= i < j < after.len() implies text_lt(after[i], after[j]) by {
            if j == keys.len() {
                if i < keys.len() - 1 {
                    lemma_text_transitive(keys[i], keys.last(), key);
                }
            } else {
                assert(after[i] == keys[i] && after[j] == keys[j]);
            }
        }
        assert forall|x: Seq<char>| #[trigger] after.contains(x) == (keys.contains(x) || x == key) by {
            lemma_pushed(keys, key, x);
        }
    } else {
        let front = keys.drop_last();
        assert(ascending(front)) by {
            assert forall|i: int, j: int|
                #![trigger front[i], front[j]]
                0 <= i < j < front.len() implies text_lt(front[i], front[j]) by {
                assert(front[i] == keys[i] && front[j] == keys[j]);
            }
        }
        assert(!front.contains(key)) by {
            if front.contains(key) {
                let k = choose|k: int| 0 <= k < front.len() && front[k] == key;
                assert(keys[k] == key);
            }
        }
        lemma_inserted(front, key);
        let rest = inserted(front, key);
        lemma_text_total(keys.last(), key);
        assert(keys.last() != key) by {
            assert(keys[keys.len() - 1] == keys.last());
        }
        assert forall|x: Seq<char>| rest.contains(x) implies text_lt(x, keys.last()) by {
            assert(rest.to_set().contains(x));
            if x != key {
                assert(front.to_set().contains(x));
                let k = choose|k: int| 0 <= k < front.len() && front[k] == x;
                assert(keys[k] == x && keys[keys.len() - 1] == keys.last());
            }
        }
        assert forall|i: int, j: int|
            #![trigger after[i], after[j]]
            0 <= i < j < after.len() implies text_lt(after[i], after[j]) by {
            if j == rest.len() {
                assert(rest.contains(rest[i]));
            } else {
                assert(after[i] == rest[i] && after[j] == rest[j]);
            }
        }
        assert(keys =~= front.push(keys.last()));
        assert forall|x: Seq<char>| #[trigger] after.contains(x) == (keys.contains(x) || x == key) by {
            lemma_pushed(rest, keys.last(), x);
            lemma_pushed(front, keys.last(), x);
            assert(rest.to_set().contains(x) == rest.contains(x));
            assert(front.to_set().contains(x) == front.contains(x));
        }
    }
    assert(after.to_set() =~= keys.to_set().insert(key));
}

proof fn lemma_pushed(list: Seq<Seq<char>>, item: Seq<char>, x: Seq<char>)
    ensures
        list.push(item).contains(x) == (list.contains(x) || x == item),
{
    let next = list.push(item);
    if next.contains(x) {
        let k = choose|k: int| 0 <= k < next.len() && next[k] == x;
        if k < list.len() {
            assert(list[k] == x);
        }
    }
    if list.contains(x) {
        let k = choose|k: int| 0 <= k < list.len() && list[k] == x;
        assert(next[k] == x);
    }
    assert(next[list.len() as int] == item);
}

/// Every finite set of texts can be put in ascending order.
pub proof fn lemma_ordered_exists(keys: Set<Seq<char>>)
    requires
        keys.finite(),
    ensures
        ascending(ordered(keys)),
        ordered(keys).to_set() == keys,
        ordered(keys).len() == keys.len(),
    decreases keys.len(),
{
    if keys.len() == 0 {
        let none = Seq::<Seq<char>>::empty();
        assert(none.to_set() =~= keys);
        lemma_ordered(none, keys);
    } else {
        let key = keys.choose();
        let rest = keys.remove(key);
        lemma_ordered_exists(rest);
        let ks = ordered(rest);
        assert(!ks.contains(key)) by {
            assert(ks.to_set().contains(key) == ks.contains(key));
        }
        lemma_inserted(ks, key);
        assert(rest.insert(key) =~= keys);
        lemma_ordered(inserted(ks, key), keys);
    }
}

impl<V> TextMap<V> {
    #[verifier::type_invariant]
    spec fn sorted(self) -> bool {
        ascending(self.keys())
    }

    /// The keys in the order in which they are stored.
    pub closed spec fn keys(&self) -> Seq<Seq<char>> {
        self.entries@.map(|i: int, e: (String, V)| e.0@)
    }

    /// The values in key order.
    pub closed spec fn values(&self) -> Seq<V> {
        self.entries@.map(|i: int, e: (String, V)| e.1)
    }

    /// Facts that hold of every map.
    pub open spec fn coherent(&self) -> bool {
        &&& ascending(self.keys())
        &&& self.keys().len() == self.values().len()
        &&& self@ == seq_map(self.keys(), self.values())
        &&& self@.dom() == self.keys().to_set()
    }
}

/// The map that pairs the i-th key with the i-th value.
pub open spec fn seq_map<V>(keys: Seq<Seq<char>>, values: Seq<V>) -> Map<Seq<char>, V> {
    Map::new(|k: Seq<char>| keys.contains(k), |k: Seq<char>| values[keys.index_of(k)])
}

impl<V> View for TextMap<V> {
    type V = Map<Seq<char>, V>;

    closed spec fn view(&self) -> Map<Seq<char>, V> {
        seq_map(self.keys(), self.values())
    }
}

pub proof fn lemma_seq_map_index<V>(keys: Seq<Seq<char>>, values: Seq<V>, i: int)
    requires
        ascending(keys),
        keys.len() == values.len(),
        0 <= i < keys.len(),
    ensures
        seq_map(keys, values).contains_key(keys[i]),
        seq_map(keys, values)[keys[i]] == values[i],
{
    lemma_ascending_distinct(keys);
    assert(keys.contains(keys[i]));
    let j = keys.index_of(keys[i]);
    assert(keys[j] == keys[i]);
}

impl<V> TextMap<V> {
    pub fn new() -> (map: Self)
        ensures
            map@ == Map::<Seq<char>, V>::empty(),
            map.keys().len() == 0,
            map.coherent(),
    {
        let map = TextMap { entries: Vec::new() };
        assert(map@ =~= Map::<Seq<char>, V>::empty());
        assert(map@.dom() =~= map.keys().to_set());
        map
    }

    /// Every map is coherent.
    pub fn check(&self)
        ensures
            self.coherent(),
    {
        proof {
            use_type_invariant(self);
            assert(self@.dom() =~= self.keys().to_set());
        }
    }

    pub fn len(&self) -> (n: usize)
        ensures
            n == self.keys().len(),
            n == self@.dom().len(),
            self.coherent(),
    {
        self.check();
        proof {
            lemma_ascending_distinct(self.keys());
            self.keys().unique_seq_to_set();
        }
        self.entries.len()
    }

    pub fn is_empty(&self) -> (empty: bool)
        ensures
            empty == (self.keys().len() == 0),
            empty == (self@.dom() =~= Set::<Seq<char>>::empty()),
            self.coherent(),
    {
        self.check();
        proof {
            if self.keys().len() == 0 {
                assert(self.keys().to_set() =~= Set::<Seq<char>>::empty());
            } else {
                assert(self.keys().to_set().contains(self.keys()[0]));
            }
        }
        self.entries.len() == 0
    }

    pub fn key(&self, i: usize) -> (key: &String)
        requires
            i < self.keys().len(),
        ensures
            key@ == self.keys()[i as int],
            self@.contains_key(key@),
            self.coherent(),
    {
        self.check();
        proof {
            lemma_seq_map_index(self.keys(), self.values(), i as int);
        }
        &self.entries[i].0
    }

    pub fn value(&self, i: usize) -> (value: &V)
        requires
            i < self.keys().len(),
        ensures
            *value == self.values()[i as int],
            self@.contains_key(self.keys()[i as int]),
            *value == self@[self.keys()[i as int]],
            self.coherent(),
    {
        self.check();
        proof {
            lemma_seq_map_index(self.keys(), self.values(), i as int);
        }
        &self.entries[i].1
    }

    /// The position of `key`, or the position where it would be inserted.
    fn find(&self, key: &str) -> (found: (bool, usize))
        ensures
            found.1 <= self.keys().len(),
            forall|i: int| 0 <= i < found.1 ==> text_lt(#[trigger] self.keys()[i], key@),
            found.0 ==> found.1 < self.keys().len() && self.keys()[found.1 as int] == key@,
            !found.0 ==> forall|i: int|
                found.1 <= i < self.keys().len() ==> text_lt(key@, #[trigger] self.keys()[i]),
    {
        self.check();
        let mut low: usize = 0;
        let mut high: usize = self.entries.len();
        let ghost keys = self.keys();
        while low < high
            invariant
                low <= high <= keys.len(),
                keys == self.keys(),
                ascending(keys),
                forall|i: int| 0 <= i < low ==> text_lt(#[trigger] keys[i], key@),
                forall|i: int| high <= i < keys.len() ==> text_lt(key@, #[trigger] keys[i]),
            decreases high - low,
        {
            let mid = low + (high - low) / 2;
            let probe = self.entries[mid].0.as_str();
            assert(probe@ == keys[mid as int]);
            if text_less(probe, key) {
                assert forall|i: int| 0 <= i < mid + 1 implies text_lt(#[trigger] keys[i], key@) by {
                    if i < mid {
                        lemma_text_transitive(keys[i], keys[mid as int], key@);
                    }
                }
                low = mid + 1;
            } else if text_eq(probe, key) {
                assert forall|i: int| 0 <= i < mid implies text_lt(#[trigger] keys[i], key@) by {
                    assert(text_lt(keys[i], keys[mid as int]));
                }
                return (true, mid);
            } else {
                proof {
                    lemma_text_total(probe@, key@);
                }
                assert forall|i: int| mid <= i < keys.len() implies text_lt(key@, #[trigger] keys[i]) by {
                    if i > mid {
                        lemma_text_transitive(key@, keys[mid as int], keys[i]);
                    }
                }
                high = mid;
            }
        }
        (false, low)
    }

    pub fn contains(&self, key: &str) -> (found: bool)
        ensures
            found == self@.contains_key(key@),
            self.coherent(),
    {
        self.check();
        let (found, at) = self.find(key);
        proof {
            if found {
                assert(self.keys().contains(self.keys()[at as int]));
            } else {
                self.lemma_absent(key@, at as int);
            }
        }
        found
    }

    proof fn lemma_absent(&self, key: Seq<char>, at: int)
        requires
            0 <= at <= self.keys().len(),
            forall|i: int| 0 <= i < at ==> text_lt(#[trigger] self.keys()[i], key),
            forall|i: int| at <= i < self.keys().len() ==> text_lt(key, #[trigger] self.keys()[i]),
        ensures
            !self.keys().contains(key),
    {
        if self.keys().contains(key) {
            let i = choose|i: int| 0 <= i < self.keys().len() && self.keys()[i] == key;
            lemma_text_irreflexive(key);
        }
    }

    pub fn get(&self, key: &str) -> (value: Option<&V>)
        ensures
            match value {
                Some(v) => self@.contains_key(key@) && *v == self@[key@],
                None => !self@.contains_key(key@),
            },
            self.coherent(),
    {
        self.check();
        let (found, at) = self.find(key);
        if found {
            proof {
                lemma_seq_map_index(self.keys(), self.values(), at as int);
            }
            Some(&self.entries[at].1)
        } else {
            proof {
                self.lemma_absent(key@, at as int);
            }
            None
        }
    }

    /// Puts `value` under `key`; an earlier value for the key is handed back.
    pub fn insert(&mut self, key: String, value: V) -> (previous: Option<V>)
        ensures
            final(self)@ == old(self)@.insert(key@, value),
            final(self).coherent(),
            match previous {
                Some(v) => old(self)@.contains_key(key@) && v == old(self)@[key@],
                None => !old(self)@.contains_key(key@),
            },
    {
        self.check();
        let ghost before = self.keys();
        let ghost values = self.values();
        let (found, at) = self.find(key.as_str());
        let ghost k = key@;
        let mut entries: Vec<(String, V)> = Vec::new();
        std::mem::swap(&mut self.entries, &mut entries);
        let ghost whole = entries@;
        let mut previous: Option<V> = None;
        if found {
            let (old_key, old_value) = entries.remove(at);
            previous = Some(old_value);
            proof {
                lemma_seq_map_index(before, values, at as int);
            }
        } else {
            proof {
                assert(!before.contains(k)) by {
                    if before.contains(k) {
                        let i = choose|i: int| 0 <= i < before.len() && before[i] == k;
                        lemma_text_irreflexive(k);
                    }
                }
            }
        }
        entries.insert(at, (key, value));
        let ghost after = entries@.map(|i: int, e: (String, V)| e.0@);
        let ghost after_values = entries@.map(|i: int, e: (String, V)| e.1);
        proof {
            if found {
                assert(after =~= before);
                assert(after_values =~= values.update(at as int, value));
            } else {
                assert(after =~= before.insert(at as int, k));
                assert(after_values =~= values.insert(at as int, value));
                assert forall|i: int, j: int|
                    #![trigger after[i], after[j]]
                    0 <= i < j < after.len() implies text_lt(after[i], after[j]) by {
                    if i < at && j > at {
                        assert(before[i] == after[i] && before[j - 1] == after[j]);
                    } else if i < at && j == at {
                        assert(before[i] == after[i]);
                    } else if i == at {
                        assert(before[j - 1] == after[j]);
                    } else if i > at {
                        assert(before[i - 1] == after[i] && before[j - 1] == after[j]);
                    } else {
                        assert(before[i] == after[i] && before[j] == after[j]);
                    }
                }
            }
            lemma_seq_map_insert(before, values, after, after_values, at as int, k, value, found);
        }
        self.entries = entries;
        self.check();
        previous
    }

    /// Takes the value of `key` out of the map.
    pub fn remove(&mut self, key: &str) -> (removed: Option<V>)
        ensures
            final(self)@ == old(self)@.remove(key@),
            final(self).coherent(),
            match removed {
                Some(v) => old(self)@.contains_key(key@) && v == old(self)@[key@],
                None => !old(self)@.contains_key(key@),
            },
    {
        self.check();
        let ghost before = self.keys();
        let ghost values = self.values();
        let (found, at) = self.find(key);
        if !found {
            proof {
                self.lemma_absent(key@, at as int);
                assert(old(self)@.remove(key@) =~= self@);
            }
            return None;
        }
        let mut entries: Vec<(String, V)> = Vec::new();
        std::mem::swap(&mut self.entries, &mut entries);
        let (old_key, old_value) = entries.remove(at);
        let ghost after = entries@.map(|i: int, e: (String, V)| e.0@);
        let ghost after_values = entries@.map(|i: int, e: (String, V)| e.1);
        proof {
            lemma_seq_map_index(before, values, at as int);
            assert(after =~= before.remove(at as int));
            assert(after_values =~= values.remove(at as int));
            assert forall|i: int, j: int|
                #![trigger after[i], after[j]]
                0 <= i < j < after.len() implies text_lt(after[i], after[j]) by {
                let x = if i < at { i } else { i + 1 };
                let y = if j < at { j } else { j + 1 };
                assert(before[x] == after[i] && before[y] == after[j]);
            }
            let m = seq_map(before, values).remove(key@);
            let n = seq_map(after, after_values);
            assert(n =~= m) by {
                lemma_ascending_distinct(before);
                assert forall|k: Seq<char>| n.contains_key(k) == m.contains_key(k) by {
                    if after.contains(k) {
                        let i = choose|i: int| 0 <= i < after.len() && after[i] == k;
                        let x = if i < at { i } else { i + 1 };
                        assert(before[x] == k);
                        assert(before.contains(k));
                    }
                    if before.contains(k) && k != key@ {
                        let x = choose|x: int| 0 <= x < before.len() && before[x] == k;
                        let i = if x < at { x } else { x - 1 };
                        assert(after[i] == k);
                    }
                }
                assert forall|k: Seq<char>| n.contains_key(k) implies n[k] == m[k] by {
                    let i = after.index_of(k);
                    assert(after[i] == k);
                    let x = if i < at { i } else { i + 1 };
                    assert(before[x] == k);
                    lemma_seq_map_index(before, values, x);
                    lemma_seq_map_index(after, after_values, i);
                }
            }
        }
        self.entries = entries;
        self.check();
        Some(old_value)
    }
}

proof fn lemma_seq_map_insert<V>(
    before: Seq<Seq<char>>,
    values: Seq<V>,
    after: Seq<Seq<char>>,
    after_values: Seq<V>,
    at: int,
    k: Seq<char>,
    value: V,
    found: bool,
)
    requires
        ascending(before),
        ascending(after),
        before.len() == values.len(),
        0 <= at <= before.len(),
        found ==> at < before.len() && before[at] == k && after == before && after_values
            == values.update(at, value),
        !found ==> !before.contains(k) && after == before.insert(at, k) && after_values
            == values.insert(at, value),
    ensures
        seq_map(after, after_values) == seq_map(before, values).insert(k, value),
{
    let m = seq_map(before, values).insert(k, value);
    let n = seq_map(after, after_values);
    lemma_ascending_distinct(before);
    lemma_ascending_distinct(after);
    assert(after[at] == k && after_values[at] == value);
    assert forall|key: Seq<char>| n.contains_key(key) == m.contains_key(key) by {
        if after.contains(key) {
            let i = choose|i: int| 0 <= i < after.len() && after[i] == key;
            if !found && i != at {
                let x = if i < at { i } else { i - 1 };
                assert(before[x] == key);
            }
        }
        if before.contains(key) {
            let x = choose|x: int| 0 <= x < before.len() && before[x] == key;
            let i = if found || x < at { x } else { x + 1 };
            assert(after[i] == key);
        }
    }
    assert forall|key: Seq<char>| n.contains_key(key) implies n[key] == m[key] by {
        let i = after.index_of(key);
        assert(after[i] == key);
        lemma_seq_map_index(after, after_values, i);
        if key == k {
            assert(i == at);
        } else {
            assert(i != at);
            let x = if found || i < at { i } else { i - 1 };
            assert(before[x] == key);
            lemma_seq_map_index(before, values, x);
        }
    }
    assert(n =~= m);
}

/// The same items, last first.
pub fn reversed<T>(items: Vec<T>) -> (result: Vec<T>)
    ensures
        result@ == items@.reverse(),
{
    let ghost all = items@;
    let mut rest = items;
    let mut result: Vec<T> = Vec::new();
    while rest.len() > 0
        invariant
            rest@.len() + result@.len() == all.len(),
            rest@ == all.take(rest@.len() as int),
            forall|i: int| 0 <= i < result@.len() ==> #[trigger] result@[i] == all[all.len() - 1 - i],
        decreases rest@.len(),
    {
        let ghost before = rest@;
        match rest.pop() {
            Some(item) => {
                assert(item == before[before.len() - 1]);
                assert(rest@ =~= all.take(rest@.len() as int));
                result.push(item);
            },
            None => {},
        }
    }
    assert(result@ =~= all.reverse());
    result
}

// ---------------------------------------------------------------------------
// Maps of lists
// ---------------------------------------------------------------------------
/// The list of a key, empty where the key is absent.
pub open spec fn list_of<T>(lists: Map<Seq<char>, Vec<T>>, key: Seq<char>) -> Seq<T> {
    if lists.contains_key(key) {
        lists[key]@
    } else {
        Seq::empty()
    }
}

/// The lists of a key in all parts, one after the other.
pub open spec fn lists_of<T>(parts: Seq<TextMap<Vec<T>>>, key: Seq<char>) -> Seq<T>
    decreases parts.len(),
{
    if parts.len() == 0 {
        Seq::empty()
    } else {
        lists_of(parts.drop_last(), key) + list_of(parts.last()@, key)
    }
}

/// Whether a part has the key.
pub open spec fn listed<T>(parts: Seq<TextMap<Vec<T>>>, key: Seq<char>) -> bool {
    exists|i: int| 0 <= i < parts.len() && (#[trigger] parts[i])@.contains_key(key)
}

proof fn lemma_lists_of_concat<T>(
    a: Seq<TextMap<Vec<T>>>,
    b: Seq<TextMap<Vec<T>>>,
    key: Seq<char>,
)
    ensures
        lists_of(a + b, key) == lists_of(a, key) + lists_of(b, key),
        listed(a + b, key) == (listed(a, key) || listed(b, key)),
    decreases b.len(),
{
    let all = a + b;
    if b.len() == 0 {
        assert(all =~= a);
        assert(lists_of(a, key) + lists_of(b, key) =~= lists_of(a, key));
    } else {
        lemma_lists_of_concat(a, b.drop_last(), key);
        assert(all.drop_last() =~= a + b.drop_last());
        assert(lists_of(all, key) =~= lists_of(a, key) + lists_of(b, key));
    }
    if listed(all, key) {
        let i = choose|i: int| 0 <= i < all.len() && (#[trigger] all[i])@.contains_key(key);
        if i < a.len() {
            assert(a[i]@.contains_key(key));
        } else {
            assert(b[i - a.len()]@.contains_key(key));
        }
    }
    if listed(a, key) {
        let i = choose|i: int| 0 <= i < a.len() && (#[trigger] a[i])@.contains_key(key);
        assert(all[i]@.contains_key(key));
    }
    if listed(b, key) {
        let i = choose|i: int| 0 <= i < b.len() && (#[trigger] b[i])@.contains_key(key);
        assert(all[i + a.len()]@.contains_key(key));
    }
}

spec fn entry_keys<V>(entries: Seq<(String, V)>) -> Seq<Seq<char>> {
    entries.map(|i: int, e: (String, V)| e.0@)
}

proof fn lemma_entry<V>(map: TextMap<V>, i: int)
    requires
        map.coherent(),
        0 <= i < map.entries@.len(),
    ensures
        map@.contains_key(map.entries@[i].0@),
        map@[map.entries@[i].0@] == map.entries@[i].1,
        map.keys()[i] == map.entries@[i].0@,
{
    lemma_seq_map_index(map.keys(), map.values(), i);
}

proof fn lemma_missing(keys: Seq<Seq<char>>, at: int, key: Seq<char>)
    requires
        ascending(keys),
        0 <= at <= keys.len(),
        forall|q: int| 0 <= q < at ==> text_lt(#[trigger] keys[q], key),
        at < keys.len() ==> text_lt(key, keys[at]),
    ensures
        !keys.contains(key),
{
    if keys.contains(key) {
        let i = choose|i: int| 0 <= i < keys.len() && keys[i] == key;
        lemma_text_irreflexive(key);
        if i > at {
            assert(text_lt(keys[at], keys[i]));
            lemma_text_asymmetric(key, keys[at]);
        }
    }
}

/// What a merge has done after it took `i` entries of one map and `j` of the other.
spec fn merged_so_far<T>(
    out: Seq<(String, Vec<T>)>,
    a: TextMap<Vec<T>>,
    b: TextMap<Vec<T>>,
    i: int,
    j: int,
) -> bool {
    let keys = entry_keys(out);
    &&& 0 <= i <= a.keys().len()
    &&& 0 <= j <= b.keys().len()
    &&& ascending(keys)
    &&& forall|m: int|
        #![trigger out[m]]
        0 <= m < out.len() ==> {
            &&& a@.contains_key(out[m].0@) || b@.contains_key(out[m].0@)
            &&& out[m].1@ == list_of(a@, out[m].0@) + list_of(b@, out[m].0@)
            &&& i < a.keys().len() ==> text_lt(out[m].0@, a.keys()[i])
            &&& j < b.keys().len() ==> text_lt(out[m].0@, b.keys()[j])
        }
    &&& forall|p: int| 0 <= p < i ==> keys.contains(#[trigger] a.keys()[p])
    &&& forall|q: int| 0 <= q < j ==> keys.contains(#[trigger] b.keys()[q])
}

proof fn lemma_merged_step<T>(
    out: Seq<(String, Vec<T>)>,
    entry: (String, Vec<T>),
    a: TextMap<Vec<T>>,
    b: TextMap<Vec<T>>,
    i: int,
    j: int,
    i1: int,
    j1: int,
)
    requires
        a.coherent(),
        b.coherent(),
        merged_so_far(out, a, b, i, j),
        i1 == i || i1 == i + 1,
        j1 == j || j1 == j + 1,
        i1 <= a.keys().len(),
        j1 <= b.keys().len(),
        i1 + j1 > i + j,
        i1 > i ==> a.keys()[i] == entry.0@,
        j1 > j ==> b.keys()[j] == entry.0@,
        i1 == i && i < a.keys().len() ==> text_lt(entry.0@, a.keys()[i]),
        j1 == j && j < b.keys().len() ==> text_lt(entry.0@, b.keys()[j]),
        entry.1@ == (if i1 > i {
            a@[entry.0@]@
        } else {
            Seq::<T>::empty()
        }) + (if j1 > j {
            b@[entry.0@]@
        } else {
            Seq::<T>::empty()
        }),
    ensures
        merged_so_far(out.push(entry), a, b, i1, j1),
{
    let next = out.push(entry);
    let keys = entry_keys(out);
    let after = entry_keys(next);
    let key = entry.0@;
    assert(after =~= keys.push(key));
    assert forall|m: int| 0 <= m < out.len() implies text_lt(#[trigger] keys[m], key) by {
        assert(keys[m] == out[m].0@);
    }
    assert(ascending(after)) by {
        assert forall|x: int, y: int|
            #![trigger after[x], after[y]]
            0 <= x < y < after.len() implies text_lt(after[x], after[y]) by {
            assert(after[x] == keys[x]);
            if y < keys.len() {
                assert(after[y] == keys[y]);
            }
        }
    }
    assert(a@.contains_key(key) == (i1 > i)) by {
        assert(a@.contains_key(key) == a.keys().to_set().contains(key));
        if i1 > i {
            assert(a.keys().contains(a.keys()[i]));
        } else {
            assert forall|p: int| 0 <= p < i implies text_lt(#[trigger] a.keys()[p], key) by {
                let m = choose|m: int| 0 <= m < keys.len() && keys[m] == a.keys()[p];
                assert(text_lt(keys[m], key));
            }
            lemma_missing(a.keys(), i, key);
        }
    }
    assert(b@.contains_key(key) == (j1 > j)) by {
        assert(b@.contains_key(key) == b.keys().to_set().contains(key));
        if j1 > j {
            assert(b.keys().contains(b.keys()[j]));
        } else {
            assert forall|q: int| 0 <= q < j implies text_lt(#[trigger] b.keys()[q], key) by {
                let m = choose|m: int| 0 <= m < keys.len() && keys[m] == b.keys()[q];
                assert(text_lt(keys[m], key));
            }
            lemma_missing(b.keys(), j, key);
        }
    }
    assert forall|m: int|
        #![trigger next[m]]
        0 <= m < next.len() implies {
        &&& a@.contains_key(next[m].0@) || b@.contains_key(next[m].0@)
        &&& next[m].1@ == list_of(a@, next[m].0@) + list_of(b@, next[m].0@)
        &&& i1 < a.keys().len() ==> text_lt(next[m].0@, a.keys()[i1])
        &&& j1 < b.keys().len() ==> text_lt(next[m].0@, b.keys()[j1])
    } by {
        if m < out.len() {
            assert(next[m] == out[m]);
            if i1 > i && i1 < a.keys().len() {
                assert(text_lt(a.keys()[i], a.keys()[i1]));
                lemma_text_transitive(out[m].0@, a.keys()[i], a.keys()[i1]);
            }
            if j1 > j && j1 < b.keys().len() {
                assert(text_lt(b.keys()[j], b.keys()[j1]));
                lemma_text_transitive(out[m].0@, b.keys()[j], b.keys()[j1]);
            }
        } else {
            assert(next[m] == entry);
        }
    }
    assert forall|p: int| 0 <= p < i1 implies after.contains(#[trigger] a.keys()[p]) by {
        lemma_pushed(keys, key, a.keys()[p]);
    }
    assert forall|q: int| 0 <= q < j1 implies after.contains(#[trigger] b.keys()[q]) by {
        lemma_pushed(keys, key, b.keys()[q]);
    }
}

/// Joins two maps of lists; where both have a key, the second list follows the
/// first. Takes time linear in the size of both.
fn merge_lists<T>(a: TextMap<Vec<T>>, b: TextMap<Vec<T>>) -> (merged: TextMap<Vec<T>>)
    ensures
        forall|k: Seq<char>| #[trigger]
            merged@.contains_key(k) == (a@.contains_key(k) || b@.contains_key(k)),
        forall|k: Seq<char>| #[trigger] list_of(merged@, k) == list_of(a@, k) + list_of(b@, k),
{
    a.check();
    b.check();
    let ghost left = a.entries@;
    let ghost right = b.entries@;
    let ghost am = a;
    let ghost bm = b;
    let mut first = reversed(a.entries);
    let mut second = reversed(b.entries);
    let mut out: Vec<(String, Vec<T>)> = Vec::new();
    let ghost mut i: int = 0;
    let ghost mut j: int = 0;
    while first.len() > 0 || second.len() > 0
        invariant
            am.coherent(),
            bm.coherent(),
            left == am.entries@,
            right == bm.entries@,
            left.len() == am.keys().len(),
            right.len() == bm.keys().len(),
            first@.len() == left.len() - i,
            second@.len() == right.len() - j,
            forall|p: int|
                0 <= p < first@.len() ==> #[trigger] first@[p] == left[left.len() - 1 - p],
            forall|q: int|
                0 <= q < second@.len() ==> #[trigger] second@[q] == right[right.len() - 1 - q],
            merged_so_far(out@, am, bm, i, j),
        decreases first@.len() + second@.len(),
    {
        let ghost before = out@;
        proof {
            if first@.len() > 0 {
                assert(first@[first@.len() - 1] == left[i]);
                lemma_entry(am, i);
            }
            if second@.len() > 0 {
                assert(second@[second@.len() - 1] == right[j]);
                lemma_entry(bm, j);
            }
        }
        let take_first: bool;
        let take_second: bool;
        if first.len() == 0 {
            take_first = false;
            take_second = true;
        } else if second.len() == 0 {
            take_first = true;
            take_second = false;
        } else {
            let x = first[first.len() - 1].0.as_str();
            let y = second[second.len() - 1].0.as_str();
            take_first = !text_less(y, x);
            take_second = !text_less(x, y);
            proof {
                lemma_text_total(x@, y@);
                lemma_text_irreflexive(x@);
                if text_lt(x@, y@) {
                    lemma_text_asymmetric(x@, y@);
                }
            }
        }
        let mut entry: Option<(String, Vec<T>)> = None;
        if take_first {
            entry = first.pop();
        }
        if take_second {
            match second.pop() {
                Some((key, mut list)) => {
                    entry = match entry {
                        Some((same, mut head)) => {
                            head.append(&mut list);
                            Some((same, head))
                        },
                        None => Some((key, list)),
                    };
                },
                None => {},
            }
        }
        match entry {
            Some(entry) => {
                proof {
                    let i1: int = if take_first { i + 1 } else { i };
                    let j1: int = if take_second { j + 1 } else { j };
                    lemma_merged_step(before, entry, am, bm, i, j, i1, j1);
                    i = i1;
                    j = j1;
                }
                out.push(entry);
            },
            None => {
                assert(false);
            },
        }
    }
    assert(entry_keys(out@) =~= out@.map(|i: int, e: (String, Vec<T>)| e.0@));
    let merged = TextMap { entries: out };
    merged.check();
    proof {
        assert forall|k: Seq<char>| #[trigger]
            merged@.contains_key(k) == (am@.contains_key(k) || bm@.contains_key(k)) by {
            lemma_merged_key(merged, am, bm, k);
        }
        assert forall|k: Seq<char>| #[trigger]
            list_of(merged@, k) == list_of(am@, k) + list_of(bm@, k) by {
            lemma_merged_key(merged, am, bm, k);
        }
    }
    merged
}

proof fn lemma_merged_key<T>(
    merged: TextMap<Vec<T>>,
    a: TextMap<Vec<T>>,
    b: TextMap<Vec<T>>,
    k: Seq<char>,
)
    requires
        merged.coherent(),
        a.coherent(),
        b.coherent(),
        merged_so_far(merged.entries@, a, b, a.keys().len() as int, b.keys().len() as int),
    ensures
        merged@.contains_key(k) == (a@.contains_key(k) || b@.contains_key(k)),
        list_of(merged@, k) == list_of(a@, k) + list_of(b@, k),
{
    let keys = merged.keys();
    assert(keys =~= entry_keys(merged.entries@));
    assert(keys.to_set().contains(k) == keys.contains(k));
    assert(a.keys().to_set().contains(k) == a.keys().contains(k));
    assert(b.keys().to_set().contains(k) == b.keys().contains(k));
    if keys.contains(k) {
        let m = choose|m: int| 0 <= m < keys.len() && keys[m] == k;
        lemma_entry(merged, m);
    } else {
        if a.keys().contains(k) {
            let p = choose|p: int| 0 <= p < a.keys().len() && a.keys()[p] == k;
            assert(keys.contains(a.keys()[p]));
        }
        if b.keys().contains(k) {
            let q = choose|q: int| 0 <= q < b.keys().len() && b.keys()[q] == k;
            assert(keys.contains(b.keys()[q]));
        }
        assert(list_of(merged@, k) =~= list_of(a@, k) + list_of(b@, k));
    }
}

/// Joins maps of lists in order: the lists of a key follow one another as
/// their parts do.
pub fn join_lists<T>(parts: Vec<TextMap<Vec<T>>>) -> (joined: TextMap<Vec<T>>)
    ensures
        forall|k: Seq<char>| #[trigger] joined@.contains_key(k) == listed(parts@, k),
        forall|k: Seq<char>| #[trigger] list_of(joined@, k) == lists_of(parts@, k),
    decreases parts@.len(),
{
    let ghost all = parts@;
    let mut front = parts;
    if front.len() <= 1 {
        return match front.pop() {
            Some(only) => {
                proof {
                    assert(all =~= seq![only]);
                    assert forall|k: Seq<char>| #[trigger]
                        only@.contains_key(k) == listed(all, k) by {
                        assert(all[0] == only);
                    }
                    assert forall|k: Seq<char>| #[trigger]
                        list_of(only@, k) == lists_of(all, k) by {
                        assert(all.drop_last() =~= Seq::<TextMap<Vec<T>>>::empty());
                        assert(lists_of(all.drop_last(), k) =~= Seq::<T>::empty());
                        assert(lists_of(all, k) =~= list_of(only@, k));
                    }
                }
                only
            },
            None => TextMap::new(),
        };
    }
    let middle = front.len() / 2;
    let back = front.split_off(middle);
    let ghost a = front@;
    let ghost b = back@;
    assert(all =~= a + b);
    let left = join_lists(front);
    let right = join_lists(back);
    let joined = merge_lists(left, right);
    proof {
        assert forall|k: Seq<char>| #[trigger] joined@.contains_key(k) == listed(all, k) by {
            lemma_lists_of_concat(a, b, k);
        }
        assert forall|k: Seq<char>| #[trigger] list_of(joined@, k) == lists_of(all, k) by {
            lemma_lists_of_concat(a, b, k);
        }
    }
    joined
}

} // verus!
