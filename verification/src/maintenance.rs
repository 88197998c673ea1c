//! Publication and retirement of index generations, removal of namespaces, and
//! the format marker of a database.
use vstd::prelude::*;
use vstd::string::*;
use vstd::utf8::*;

use crate::error::{corrupt, misconfigured, Error, ErrorView, Result};
use crate::index::{output_bytes, size_of_op};
use crate::keys::{
    apply, apply_op, belongs, belongs_by, delete, delete_op, generation_root,
    lemma_apply_untouched, lemma_mark_not_member, lemma_member_injective, mark, mark_key, member,
    members, op_view, ops_view, put, put_op, revision, revision_bytes, KeyOp, Kv, Op,
};
use crate::model::{valid_id, NamespaceStats};
use crate::outside::decode_text;
use crate::search::stored_revision_of;
use crate::store::{id_represented, represents, stats_match, NamespaceState};
use crate::text::{bytes_eq, copy_range, starts_with, views};
use crate::textmap::reversed;

verus! {

// ---------------------------------------------------------------------------
// Staging
// ---------------------------------------------------------------------------
pub const STAGE_BYTES: usize = 1048576;

/// How many keys one cleanup batch removes.
pub const SWEEP_KEYS: usize = 1000;

pub open spec fn batches(list: Seq<Vec<KeyOp>>) -> Seq<Seq<Op>> {
    list.map_values(|ops: Vec<KeyOp>| ops_view(ops@))
}

/// All operations, one batch after the other.
pub open spec fn flattened(list: Seq<Seq<Op>>) -> Seq<Op>
    decreases list.len(),
{
    if list.len() == 0 {
        Seq::empty()
    } else {
        flattened(list.drop_last()) + list.last()
    }
}

/// A batch is committed as soon as it reaches the stage size.
pub open spec fn full_batch(ops: Seq<Op>) -> bool {
    &&& ops.len() > 0
    &&& output_bytes(ops, ops.len()) >= STAGE_BYTES
    &&& output_bytes(ops, (ops.len() - 1) as nat) < STAGE_BYTES
}

/// The operations in order, in full batches and a last one that is not full.
pub open spec fn staged(list: Seq<Seq<Op>>, last: Seq<Op>, ops: Seq<Op>) -> bool {
    &&& flattened(list) + last == ops
    &&& forall|i: int| 0 <= i < list.len() ==> full_batch(#[trigger] list[i])
    &&& output_bytes(last, last.len()) < STAGE_BYTES
}

proof fn lemma_output_push(ops: Seq<Op>, op: Op, n: nat)
    requires
        n <= ops.len(),
    ensures
        output_bytes(ops.push(op), n) == output_bytes(ops, n),
    decreases n,
{
    if n > 0 {
        lemma_output_push(ops, op, (n - 1) as nat);
        assert(ops.push(op)[n - 1] == ops[n - 1]);
    }
}

/// Cuts operations into batches of about 1 MiB. The last batch, possibly empty,
/// is returned apart.
pub fn stage(ops: Vec<KeyOp>) -> (result: (Vec<Vec<KeyOp>>, Vec<KeyOp>))
    ensures
        staged(batches(result.0@), ops_view(result.1@), ops_view(ops@)),
{
    let ghost all = ops_view(ops@);
    let mut rest = ops;
    let mut done: Vec<Vec<KeyOp>> = Vec::new();
    let mut batch: Vec<KeyOp> = Vec::new();
    let mut bytes: u128 = 0;
    let ghost mut taken: int = 0;
    proof {
        assert(batches(done@) =~= Seq::<Seq<Op>>::empty());
        assert(ops_view(batch@) =~= Seq::<Op>::empty());
        assert(flattened(batches(done@)) + ops_view(batch@) =~= all.take(0));
        assert(ops_view(rest@) =~= all.skip(0));
    }
    rest = reversed(rest);
    while rest.len() > 0
        invariant
            0 <= taken <= all.len(),
            rest@.len() == all.len() - taken,
            forall|i: int|
                0 <= i < rest@.len() ==> op_view(#[trigger] rest@[i]) == all[all.len() - 1 - i],
            flattened(batches(done@)) + ops_view(batch@) == all.take(taken),
            forall|i: int| 0 <= i < done@.len() ==> full_batch(#[trigger] batches(done@)[i]),
            bytes == output_bytes(ops_view(batch@), batch@.len()),
            bytes < STAGE_BYTES,
        decreases rest@.len(),
    {
        let ghost before = ops_view(batch@);
        let ghost head = flattened(batches(done@));
        let next = rest.pop();
        match next {
            Some(op) => {
                let size = size_of_op(&op);
                let ghost added = op_view(op);
                proof {
                    assert(added == all[taken]);
                    assert(all.take(taken + 1) =~= all.take(taken).push(added));
                    lemma_output_push(before, added, before.len());
                }
                batch.push(op);
                assert(ops_view(batch@) =~= before.push(added));
                assert(head + ops_view(batch@) =~= all.take(taken + 1));
                bytes = bytes + size;
                if bytes >= STAGE_BYTES as u128 {
                    let ghost full = ops_view(batch@);
                    let ghost old_done = batches(done@);
                    done.push(batch);
                    batch = Vec::new();
                    bytes = 0;
                    proof {
                        assert(batches(done@) =~= old_done.push(full));
                        assert(batches(done@).drop_last() =~= old_done);
                        assert(ops_view(batch@) =~= Seq::<Op>::empty());
                        assert(flattened(batches(done@)) + ops_view(batch@) =~= head + full);
                        assert(full.len() - 1 == before.len());
                        assert(full_batch(full));
                    }
                }
                proof {
                    taken = taken + 1;
                }
            },
            None => {},
        }
    }
    assert(all.take(taken) =~= all);
    (done, batch)
}

// ---------------------------------------------------------------------------
// Publication
// ---------------------------------------------------------------------------
/// The batches of a publication in the order of their commits: the cleanup
/// marker, the entries of the generation, and last the pointer to it.
pub open spec fn publication_batches(
    name: Seq<char>,
    full: Seq<Seq<Op>>,
    last: Seq<Op>,
    status: Seq<u8>,
) -> Seq<Seq<Op>> {
    let entries = if last.len() == 0 {
        full
    } else {
        full.push(last)
    };
    seq![seq![put_op(mark('j', name), encode_utf8("cleanup"@))]] + entries + seq![
        seq![put_op(mark('i', name), status)],
    ]
}

/// Plans the publication of a generation. Each batch must be durable before the
/// next is committed.
pub fn publication(name: &str, entries: Vec<KeyOp>, status: Vec<u8>) -> (plan: Vec<Vec<KeyOp>>)
    ensures
        exists|full: Seq<Seq<Op>>, last: Seq<Op>|
            staged(full, last, ops_view(entries@)) && batches(plan@) == #[trigger]
                publication_batches(name@, full, last, status@),
{
    let (mut plan_entries, last) = stage(entries);
    let ghost full = batches(plan_entries@);
    let ghost tail = ops_view(last@);
    if last.len() > 0 {
        plan_entries.push(last);
        assert(batches(plan_entries@) =~= full.push(tail));
    }
    let ghost middle = batches(plan_entries@);
    let mut marker: Vec<KeyOp> = Vec::new();
    assert(ops_view(marker@) =~= Seq::<Op>::empty());
    put(&mut marker, mark_key('j', name), text_bytes("cleanup"));
    let mut pointer: Vec<KeyOp> = Vec::new();
    assert(ops_view(pointer@) =~= Seq::<Op>::empty());
    put(&mut pointer, mark_key('i', name), status);
    let ghost first = ops_view(marker@);
    let ghost end = ops_view(pointer@);
    let mut plan: Vec<Vec<KeyOp>> = Vec::new();
    plan.push(marker);
    assert(batches(plan@) =~= seq![first]);
    let ghost start = batches(plan@);
    plan.append(&mut plan_entries);
    assert(batches(plan@) =~= start + middle);
    plan.push(pointer);
    proof {
        assert(first =~= seq![put_op(mark('j', name@), encode_utf8("cleanup"@))]);
        assert(end =~= seq![put_op(mark('i', name@), status@)]);
        assert(batches(plan@) =~= publication_batches(name@, full, tail, status@));
    }
    plan
}

pub open spec fn generation_ops(name: Seq<char>, ops: Seq<Op>) -> bool {
    forall|i: int| 0 <= i < ops.len() ==> members('g', name).is_prefix_of((#[trigger] ops[i]).key)
}

proof fn lemma_flattened_push(list: Seq<Seq<Op>>, last: Seq<Op>)
    ensures
        flattened(list.push(last)) == flattened(list) + last,
{
    assert(list.push(last).drop_last() =~= list);
}

proof fn lemma_flattened_concat(a: Seq<Seq<Op>>, b: Seq<Seq<Op>>)
    ensures
        flattened(a + b) == flattened(a) + flattened(b),
    decreases b.len(),
{
    if b.len() == 0 {
        assert(a + b =~= a);
        assert(flattened(a) + flattened(b) =~= flattened(a));
    } else {
        lemma_flattened_concat(a, b.drop_last());
        assert((a + b).drop_last() =~= a + b.drop_last());
        assert(flattened(a + b) =~= flattened(a) + flattened(b));
    }
}

proof fn lemma_flattened_take(list: Seq<Seq<Op>>, k: int, i: int)
    requires
        0 <= k <= list.len(),
        0 <= i < flattened(list.take(k)).len(),
    ensures
        i < flattened(list).len(),
        flattened(list.take(k))[i] == flattened(list)[i],
{
    assert(list =~= list.take(k) + list.skip(k));
    lemma_flattened_concat(list.take(k), list.skip(k));
}

/// If a publication stops after any of its batches, the namespace still points
/// to the index that it had, unless every entry of the new generation has been
/// committed: a published generation is complete.
pub proof fn law_publication_complete(
    db: Kv,
    name: Seq<char>,
    full: Seq<Seq<Op>>,
    last: Seq<Op>,
    entries: Seq<Op>,
    status: Seq<u8>,
    k: int,
)
    requires
        valid_id(name),
        staged(full, last, entries),
        generation_ops(name, entries),
        0 <= k <= publication_batches(name, full, last, status).len(),
    ensures
        ({
            let plan = publication_batches(name, full, last, status);
            let after = apply(db, flattened(plan.take(k)));
            let pointer = mark('i', name);
            &&& k < plan.len() ==> after.contains_key(pointer) == db.contains_key(pointer) && (
            db.contains_key(pointer) ==> after[pointer] == db[pointer])
            &&& k == plan.len() ==> after == apply_op(
                apply(
                    apply_op(db, put_op(mark('j', name), encode_utf8("cleanup"@))),
                    entries,
                ),
                put_op(pointer, status),
            )
        }),
{
    let plan = publication_batches(name, full, last, status);
    let middle = if last.len() == 0 {
        full
    } else {
        full.push(last)
    };
    let marker = put_op(mark('j', name), encode_utf8("cleanup"@));
    let pointer = mark('i', name);
    let publish = put_op(pointer, status);
    let head = seq![seq![marker]] + middle;
    lemma_flattened_push(full, last);
    assert(flattened(middle) =~= entries) by {
        if last.len() == 0 {
            assert(flattened(full) + last =~= flattened(full));
        }
    }
    lemma_flattened_concat(seq![seq![marker]], middle);
    assert(flattened(seq![seq![marker]]) =~= seq![marker]) by {
        lemma_flattened_push(Seq::<Seq<Op>>::empty(), seq![marker]);
        assert(Seq::<Seq<Op>>::empty().push(seq![marker]) =~= seq![seq![marker]]);
    }
    assert(flattened(head) =~= seq![marker] + entries);
    assert(plan =~= head.push(seq![publish]));
    lemma_flattened_push(head, seq![publish]);
    if k < plan.len() {
        let done = flattened(plan.take(k));
        assert(plan.take(k) =~= head.take(k));
        assert forall|i: int| 0 <= i < done.len() implies (#[trigger] done[i]).key != pointer by {
            lemma_flattened_take(head, k, i);
            let op = flattened(head)[i];
            assert(done[i] == op);
            if i == 0 {
                assert(op == marker);
                assert(marker.key[0] == 'j' && pointer[0] == 'i');
            } else {
                assert(op == entries[i - 1]);
                assert(members('g', name).is_prefix_of(entries[i - 1].key));
                lemma_mark_not_member('i', name, 'g', name);
            }
        }
        lemma_apply_untouched(db, done, pointer);
    } else {
        assert(plan.take(k) =~= plan);
        let all = seq![marker] + entries;
        assert(flattened(plan) =~= all.push(publish));
        assert(all.push(publish).drop_last() =~= all);
        crate::keys::lemma_apply_concat(db, seq![marker], entries);
        reveal_with_fuel(apply, 2);
        assert(seq![marker].drop_last() =~= Seq::<Op>::empty());
    }
}

// ---------------------------------------------------------------------------
// Cleanup
// ---------------------------------------------------------------------------
/// Whether a key of an index generation is obsolete: it does not lie under the
/// retained root.
pub fn is_obsolete(key: &str, retained: &str) -> (obsolete: bool)
    ensures
        obsolete == !retained@.is_prefix_of(key@),
        obsolete == outside_of(key@, retained@),
{
    !starts_with(key, retained)
}

/// A stored change is covered by an index of the given revision.
pub open spec fn covered(value: Seq<u8>, indexed: u64) -> bool {
    stored_revision_of(value) <= indexed
}

pub open spec fn is_revision(value: Seq<u8>) -> bool {
    value.len() == 8
}

/// Whether a stored change is covered by an index.
pub fn is_covered(value: &[u8], indexed: u64) -> (result: Result<bool>)
    ensures
        match result {
            Ok(yes) => is_revision(value@) && yes == covered(value@, indexed),
            Err(e) => !is_revision(value@) && e@ == ErrorView::Corrupt("invalid revision"@),
        },
{
    match revision(value) {
        Ok(n) => {
            proof {
                crate::binary::lemma_le_len(n as nat, 8);
                let found = stored_revision_of(value@);
                assert(revision_bytes(n) == value@);
                crate::keys::lemma_revision_injective(found, n);
            }
            Ok(n <= indexed)
        },
        Err(e) => Err(e),
    }
}

/// The change records among the first `n` that are still there and covered.
pub open spec fn retired(
    keys: Seq<Seq<char>>,
    values: Seq<Option<Vec<u8>>>,
    indexed: u64,
    n: nat,
) -> Seq<Seq<char>>
    decreases n,
{
    if n == 0 {
        Seq::empty()
    } else {
        let front = retired(keys, values, indexed, (n - 1) as nat);
        if values[n - 1] is Some && covered(values[n - 1]->0@, indexed) {
            front.push(keys[n - 1])
        } else {
            front
        }
    }
}

pub open spec fn revisions_valid(values: Seq<Option<Vec<u8>>>, n: nat) -> bool {
    forall|i: int|
        0 <= i < n ==> ((#[trigger] values[i]) is Some ==> is_revision(values[i]->0@))
}

pub open spec fn deletions(keys: Seq<Seq<char>>) -> Seq<Op> {
    keys.map_values(|k: Seq<char>| delete_op(k))
}

/// Keys to remove, gathered into batches.
pub struct Sweep {
    pub pending: Vec<KeyOp>,
}

impl Sweep {
    pub fn new() -> (sweep: Sweep)
        ensures
            ops_view(sweep.pending@) == Seq::<Op>::empty(),
    {
        let sweep = Sweep { pending: Vec::new() };
        assert(ops_view(sweep.pending@) =~= Seq::<Op>::empty());
        sweep
    }

    /// Adds a key. Returns a batch when it is full.
    pub fn remove(&mut self, key: String) -> (full: Option<Vec<KeyOp>>)
        requires
            old(self).pending@.len() < SWEEP_KEYS,
        ensures
            ({
                let all = ops_view(old(self).pending@).push(delete_op(key@));
                match full {
                    Some(batch) => all.len() == SWEEP_KEYS && ops_view(batch@) == all
                        && final(self).pending@.len() == 0,
                    None => all.len() < SWEEP_KEYS && ops_view(final(self).pending@) == all,
                }
            }),
    {
        delete(&mut self.pending, key);
        assert(ops_view(self.pending@).len() == self.pending@.len());
        if self.pending.len() == SWEEP_KEYS {
            let mut full: Vec<KeyOp> = Vec::new();
            std::mem::swap(&mut self.pending, &mut full);
            Some(full)
        } else {
            None
        }
    }
}

/// Retires change records that an index covers. `values` are their current
/// values, read again under the commit lock: a record that was removed or
/// changed since stays as it is.
pub fn retire_changes(
    keys: &Vec<String>,
    values: &Vec<Option<Vec<u8>>>,
    stats: &NamespaceStats,
    indexed: u64,
) -> (result: Result<(Vec<KeyOp>, NamespaceStats)>)
    requires
        keys@.len() == values@.len(),
        retired(views(keys@), values@, indexed, keys@.len()).len() <= stats.pending_documents,
    ensures
        match result {
            Ok((ops, after)) => {
                let gone = retired(views(keys@), values@, indexed, keys@.len());
                &&& revisions_valid(values@, values@.len())
                &&& ops_view(ops@) == deletions(gone)
                &&& after == (NamespaceStats {
                    pending_documents: (stats.pending_documents - gone.len()) as u64,
                    ..*stats
                })
            },
            Err(e) => !revisions_valid(values@, values@.len()) && e@ == ErrorView::Corrupt(
                "invalid revision"@,
            ),
        },
{
    let ghost names = views(keys@);
    let mut ops: Vec<KeyOp> = Vec::new();
    let mut pending: u64 = stats.pending_documents;
    let mut i: usize = 0;
    assert(ops_view(ops@) =~= deletions(retired(names, values@, indexed, 0)));
    while i < keys.len()
        invariant
            i <= keys@.len() == values@.len(),
            names == views(keys@),
            revisions_valid(values@, i as nat),
            ops_view(ops@) == deletions(retired(names, values@, indexed, i as nat)),
            pending == stats.pending_documents - retired(names, values@, indexed, i as nat).len(),
            retired(names, values@, indexed, keys@.len()).len() <= stats.pending_documents,
        decreases keys@.len() - i,
    {
        match &values[i] {
            Some(value) => {
                match is_covered(value.as_slice(), indexed) {
                    Ok(yes) => {
                        if yes {
                            let ghost before = retired(names, values@, indexed, i as nat);
                            let ghost old_ops = ops_view(ops@);
                            proof {
                                lemma_retired_monotonic(
                                    names,
                                    values@,
                                    indexed,
                                    (i + 1) as nat,
                                    keys@.len(),
                                );
                            }
                            delete(&mut ops, keys[i].clone());
                            pending = pending - 1;
                            assert(deletions(before.push(names[i as int])) =~= deletions(
                                before,
                            ).push(delete_op(names[i as int])));
                        }
                    },
                    Err(e) => {
                        assert(!revisions_valid(values@, values@.len())) by {
                            assert(values@[i as int] is Some);
                        }
                        return Err(e);
                    },
                }
            },
            None => {},
        }
        i += 1;
    }
    Ok((ops, NamespaceStats {
        revision: stats.revision,
        documents: stats.documents,
        bytes: stats.bytes,
        pending_documents: pending,
    }))
}

proof fn lemma_retired_monotonic(
    keys: Seq<Seq<char>>,
    values: Seq<Option<Vec<u8>>>,
    indexed: u64,
    a: nat,
    b: nat,
)
    requires
        a <= b,
    ensures
        retired(keys, values, indexed, a).len() <= retired(keys, values, indexed, b).len(),
    decreases b,
{
    if a < b {
        lemma_retired_monotonic(keys, values, indexed, a, (b - 1) as nat);
    }
}

/// The state after the changes of the given IDs have been retired.
pub open spec fn without_changes(state: NamespaceState, ids: Set<Seq<char>>) -> NamespaceState {
    NamespaceState { documents: state.documents, changes: state.changes.remove_keys(ids) }
}

pub open spec fn change_keys(name: Seq<char>, ids: Seq<Seq<char>>) -> Seq<Seq<char>> {
    ids.map_values(|id: Seq<char>| member('c', name, id))
}

proof fn lemma_deletions(db: Kv, keys: Seq<Seq<char>>, key: Seq<char>)
    ensures
        apply(db, deletions(keys)).contains_key(key) == (db.contains_key(key) && !keys.contains(
            key,
        )),
        db.contains_key(key) && !keys.contains(key) ==> apply(db, deletions(keys))[key] == db[key],
    decreases keys.len(),
{
    let ops = deletions(keys);
    if keys.len() > 0 {
        let front = keys.drop_last();
        lemma_deletions(db, front, key);
        assert(ops.drop_last() =~= deletions(front));
        assert(keys =~= front.push(keys.last()));
        crate::search::lemma_push_contains(front, keys.last(), key);
    }
}

/// Retiring changes that an index covers keeps the counters exact and touches
/// nothing but those records: documents, vectors and later changes stay.
pub proof fn law_cleanup_keeps_counters(
    db: Kv,
    name: Seq<char>,
    state: NamespaceState,
    stats: NamespaceStats,
    ids: Seq<Seq<char>>,
    indexed: u64,
    stats_bytes: Seq<u8>,
)
    requires
        valid_id(name),
        represents(db, name, state),
        stats_match(stats, state),
        ids.no_duplicates(),
        forall|i: int|
            0 <= i < ids.len() ==> state.changes.contains_key(#[trigger] ids[i])
                && state.changes[ids[i]] <= indexed,
    ensures
        ({
            let ops = deletions(change_keys(name, ids)).push(put_op(mark('s', name), stats_bytes));
            let after = NamespaceStats {
                pending_documents: (stats.pending_documents - ids.len()) as u64,
                ..stats
            };
            let left = without_changes(state, ids.to_set());
            &&& ids.len() <= stats.pending_documents
            &&& represents(apply(db, ops), name, left)
            &&& stats_match(after, left)
            &&& forall|id: Seq<char>|
                state.changes.contains_key(id) && state.changes[id] > indexed
                    ==> #[trigger] left.changes.contains_key(id)
        }),
{
    let keys = change_keys(name, ids);
    let middle = apply(db, deletions(keys));
    let ops = deletions(keys).push(put_op(mark('s', name), stats_bytes));
    let left = without_changes(state, ids.to_set());
    assert(ops.drop_last() =~= deletions(keys));
    assert forall|id: Seq<char>| #[trigger] id_represented(middle, name, left, id) by {
        assert(id_represented(db, name, state, id));
        let d = member('d', name, id);
        let v = member('v', name, id);
        let c = member('c', name, id);
        lemma_deletions(db, keys, d);
        lemma_deletions(db, keys, v);
        lemma_deletions(db, keys, c);
        assert(d[0] == 'd' && v[0] == 'v' && c[0] == 'c');
        assert(!keys.contains(d) && !keys.contains(v)) by {
            assert forall|i: int| 0 <= i < keys.len() implies #[trigger] keys[i] != d && keys[i] != v by {
                assert(keys[i] == member('c', name, ids[i]));
                assert(keys[i][0] == 'c');
            }
        }
        assert(keys.contains(c) == ids.to_set().contains(id)) by {
            if keys.contains(c) {
                let i = choose|i: int| 0 <= i < keys.len() && keys[i] == c;
                lemma_member_injective('c', name, ids[i], 'c', name, id);
                assert(ids.contains(ids[i]));
            }
            if ids.contains(id) {
                let i = choose|i: int| 0 <= i < ids.len() && ids[i] == id;
                assert(keys[i] == c);
            }
        }
    }
    crate::store::lemma_mark_keeps_state(middle, 's', name, Some(stats_bytes), name, left);
    lemma_removed_len(state.changes.dom(), ids);
    assert(left.changes.dom() =~= state.changes.dom().difference(ids.to_set()));
    assert forall|id: Seq<char>| #[trigger] left.changes.contains_key(id) implies left.changes[id]
        <= stats.revision by {
        assert(state.changes.contains_key(id));
    }
    assert forall|id: Seq<char>|
        state.changes.contains_key(id) && state.changes[id] > indexed implies
        #[trigger] left.changes.contains_key(id) by {
        if ids.contains(id) {
            let i = choose|i: int| 0 <= i < ids.len() && ids[i] == id;
            assert(state.changes[ids[i]] <= indexed);
        }
    }
}

proof fn lemma_removed_len(all: Set<Seq<char>>, ids: Seq<Seq<char>>)
    requires
        all.finite(),
        ids.no_duplicates(),
        forall|i: int| 0 <= i < ids.len() ==> all.contains(#[trigger] ids[i]),
    ensures
        ids.len() <= all.len(),
        all.difference(ids.to_set()).finite(),
        all.difference(ids.to_set()).len() == all.len() - ids.len(),
    decreases ids.len(),
{
    if ids.len() == 0 {
        assert(all.difference(ids.to_set()) =~= all);
    } else {
        let front = ids.drop_last();
        let last = ids.last();
        assert(front.no_duplicates());
        assert forall|i: int| 0 <= i < front.len() implies all.contains(#[trigger] front[i]) by {
            assert(front[i] == ids[i]);
        }
        lemma_removed_len(all, front);
        assert(!front.contains(last)) by {
            if front.contains(last) {
                let i = choose|i: int| 0 <= i < front.len() && front[i] == last;
                assert(ids[i] == ids[ids.len() - 1]);
            }
        }
        assert(all.contains(ids[ids.len() - 1]));
        assert(ids =~= front.push(last));
        assert forall|x: Seq<char>| #[trigger] ids.to_set().contains(x) == front.to_set().insert(
            last,
        ).contains(x) by {
            crate::search::lemma_push_contains(front, last, x);
        }
        assert(all.difference(ids.to_set()) =~= all.difference(front.to_set()).remove(last));
        assert(all.difference(front.to_set()).contains(last));
    }
}

/// Cleanup keeps every key of the active generation and finds every key of any
/// other generation obsolete.
pub proof fn law_cleanup_keeps_active_generation(
    name: Seq<char>,
    active: Seq<char>,
    other: Seq<char>,
    rest: Seq<char>,
)
    requires
        forall|i: int| 0 <= i < active.len() ==> #[trigger] active[i] != '/',
        forall|i: int| 0 <= i < other.len() ==> #[trigger] other[i] != '/',
    ensures
        generation_root(name, active).is_prefix_of(generation_root(name, active) + rest),
        active != other ==> !generation_root(name, active).is_prefix_of(
            generation_root(name, other) + rest,
        ),
{
    let retained = generation_root(name, active);
    let own = retained + rest;
    assert(own.subrange(0, retained.len() as int) =~= retained);
    let foreign = generation_root(name, other) + rest;
    if retained.is_prefix_of(foreign) {
        let n = members('g', name).len() as int;
        let tail = foreign.skip(retained.len() as int);
        assert(foreign.subrange(0, retained.len() as int) =~= retained);
        assert(foreign =~= retained + tail);
        assert(foreign.skip(n) =~= other + seq!['/'] + rest);
        assert((retained + tail).skip(n) =~= active + seq!['/'] + tail);
        crate::text::lemma_first_slash(other, rest, active, tail);
    }
}

// ---------------------------------------------------------------------------
// Deleting namespaces
// ---------------------------------------------------------------------------
/// The kinds of keys that carry an ID.
pub open spec fn member_kind(kind: char) -> bool {
    kind == 'd' || kind == 'v' || kind == 'c' || kind == 'g'
}

/// The key holds data of the namespace: a document, a vector, a change, an index
/// block, or one of the marks other than the schema.
pub open spec fn namespace_data(key: Seq<char>, name: Seq<char>) -> bool {
    ||| members('d', name).is_prefix_of(key)
    ||| members('v', name).is_prefix_of(key)
    ||| members('c', name).is_prefix_of(key)
    ||| members('g', name).is_prefix_of(key)
    ||| key == mark('i', name)
    ||| key == mark('s', name)
    ||| key == mark('z', name)
    ||| key == mark('j', name)
}

/// The prefixes that are scanned to erase a namespace.
pub fn erase_prefixes(name: &str) -> (prefixes: Vec<String>)
    ensures
        views(prefixes@) == seq![
            members('d', name@),
            members('v', name@),
            members('c', name@),
            members('g', name@),
        ],
{
    let mut prefixes: Vec<String> = Vec::new();
    prefixes.push(crate::keys::member_prefix('d', name));
    prefixes.push(crate::keys::member_prefix('v', name));
    prefixes.push(crate::keys::member_prefix('c', name));
    prefixes.push(crate::keys::member_prefix('g', name));
    assert(views(prefixes@) =~= seq![
        members('d', name@),
        members('v', name@),
        members('c', name@),
        members('g', name@),
    ]);
    prefixes
}

pub open spec fn erased_marks(name: Seq<char>) -> Seq<Seq<char>> {
    seq![mark('i', name), mark('s', name), mark('z', name), mark('j', name)]
}

/// The last batch of an erasure: the marks, and with them the deletion intent.
pub fn erase_marks(name: &str) -> (ops: Vec<KeyOp>)
    ensures
        ops_view(ops@) == deletions(erased_marks(name@)),
{
    let mut ops: Vec<KeyOp> = Vec::new();
    assert(ops_view(ops@) =~= Seq::<Op>::empty());
    delete(&mut ops, mark_key('i', name));
    delete(&mut ops, mark_key('s', name));
    delete(&mut ops, mark_key('z', name));
    delete(&mut ops, mark_key('j', name));
    assert(ops_view(ops@) =~= deletions(erased_marks(name@)));
    ops
}

pub open spec fn intent_ops(name: Seq<char>) -> Seq<Op> {
    seq![delete_op(mark('n', name)), put_op(mark('z', name), encode_utf8("delete"@))]
}

/// The batch that starts a deletion: the namespace is hidden, and the intent is
/// recorded, in one step.
pub fn deletion_intent(name: &str) -> (ops: Vec<KeyOp>)
    ensures
        ops_view(ops@) == intent_ops(name@),
{
    let mut ops: Vec<KeyOp> = Vec::new();
    assert(ops_view(ops@) =~= Seq::<Op>::empty());
    delete(&mut ops, mark_key('n', name));
    put(&mut ops, mark_key('z', name), text_bytes("delete"));
    assert(ops_view(ops@) =~= intent_ops(name@));
    ops
}

pub fn text_bytes(text: &str) -> (bytes: Vec<u8>)
    ensures
        bytes@ == encode_utf8(text@),
{
    let slice = text.as_bytes();
    let bytes = copy_range(slice, 0, slice.len());
    assert(bytes@ =~= encode_utf8(text@));
    bytes
}

/// The namespace that a recorded deletion intent names.
pub fn intent_name(key: &[u8]) -> (result: Result<String>)
    requires
        key@.len() >= 2,
    ensures
        match result {
            Ok(name) => encode_utf8(name@) == key@.skip(2),
            Err(e) => !valid_utf8(key@.skip(2)) && e@ == ErrorView::Corrupt(
                "invalid deletion marker"@,
            ),
        },
{
    let bytes = copy_range(key, 2, key.len());
    assert(bytes@ =~= key@.skip(2));
    match decode_text(bytes) {
        Some(name) => Ok(name),
        None => Err(corrupt("invalid deletion marker")),
    }
}

/// The store without the data of a namespace.
pub open spec fn erased(db: Kv, name: Seq<char>) -> Kv {
    db.restrict(Set::new(|key: Seq<char>| !namespace_data(key, name)))
}

/// The scanned keys are those of the store under the prefixes of the namespace.
pub open spec fn scanned_members(db: Kv, name: Seq<char>, keys: Seq<Seq<char>>) -> bool {
    forall|key: Seq<char>| #[trigger]
        keys.contains(key) <==> db.contains_key(key) && exists|kind: char|
            member_kind(kind) && #[trigger] members(kind, name).is_prefix_of(key)
}

/// Erasing a namespace removes all of its data and touches no other key, however
/// much an interrupted erasure has already removed.
pub proof fn law_erase_complete(db: Kv, name: Seq<char>, keys: Seq<Seq<char>>)
    requires
        scanned_members(db, name, keys),
    ensures
        apply(db, deletions(keys) + deletions(erased_marks(name))) == erased(db, name),
{
    let marks = erased_marks(name);
    let middle = apply(db, deletions(keys));
    let after = apply(middle, deletions(marks));
    crate::keys::lemma_apply_concat(db, deletions(keys), deletions(marks));
    assert forall|key: Seq<char>|
        #![trigger after.dom().contains(key)]
        after.dom().contains(key) == erased(db, name).dom().contains(key) && (after.dom().contains(
            key,
        ) ==> after[key] == db[key]) by {
        lemma_deletions(db, keys, key);
        lemma_deletions(middle, marks, key);
        assert(marks[0] == mark('i', name) && marks[1] == mark('s', name) && marks[2] == mark(
            'z',
            name,
        ) && marks[3] == mark('j', name));
        assert(marks.contains(key) == (key == mark('i', name) || key == mark('s', name) || key
            == mark('z', name) || key == mark('j', name)));
        if members('d', name).is_prefix_of(key) {
            assert(member_kind('d'));
        }
        if members('v', name).is_prefix_of(key) {
            assert(member_kind('v'));
        }
        if members('c', name).is_prefix_of(key) {
            assert(member_kind('c'));
        }
        if members('g', name).is_prefix_of(key) {
            assert(member_kind('g'));
        }
    }
    assert(after.dom() =~= erased(db, name).dom());
    assert(after =~= erased(db, name));
}

/// An erasure that was interrupted, and is run again, ends as if it had not been.
pub proof fn law_erase_resumes(db: Kv, partial: Kv, name: Seq<char>)
    requires
        forall|key: Seq<char>| #[trigger]
            partial.contains_key(key) ==> db.contains_key(key) && partial[key] == db[key],
        forall|key: Seq<char>| #[trigger]
            db.contains_key(key) && !namespace_data(key, name) ==> partial.contains_key(key),
    ensures
        erased(partial, name) == erased(db, name),
{
    assert(erased(partial, name) =~= erased(db, name));
}

/// Deleting a namespace removes its schema and every other key of it, and leaves
/// every key that belongs to another namespace as it is.
pub proof fn law_delete_isolated(db: Kv, name: Seq<char>, other: Seq<char>, key: Seq<char>)
    requires
        valid_id(name),
        valid_id(other),
        name != other,
        belongs(key, other),
    ensures
        ({
            let after = erased(apply(db, intent_ops(name)), name);
            &&& after.contains_key(key) == db.contains_key(key)
            &&& db.contains_key(key) ==> after[key] == db[key]
            &&& !after.contains_key(mark('n', name))
        }),
{
    let ops = intent_ops(name);
    let hidden = apply(db, ops);
    assert forall|i: int| 0 <= i < ops.len() implies (#[trigger] ops[i]).key != key by {
        if ops[i].key == key {
            assert(belongs_by(key, key[0], name)) by {
                assert(mark('n', name)[0] == 'n' && mark('z', name)[0] == 'z');
            }
            crate::keys::law_namespaces_isolated(key, name, other);
        }
    }
    lemma_apply_untouched(db, ops, key);
    if namespace_data(key, name) {
        assert(belongs(key, name)) by {
            if members('d', name).is_prefix_of(key) {
                assert(belongs_by(key, 'd', name));
            } else if members('v', name).is_prefix_of(key) {
                assert(belongs_by(key, 'v', name));
            } else if members('c', name).is_prefix_of(key) {
                assert(belongs_by(key, 'c', name));
            } else if members('g', name).is_prefix_of(key) {
                assert(belongs_by(key, 'g', name));
            } else if key == mark('i', name) {
                assert(belongs_by(key, 'i', name));
            } else if key == mark('s', name) {
                assert(belongs_by(key, 's', name));
            } else if key == mark('z', name) {
                assert(belongs_by(key, 'z', name));
            } else {
                assert(belongs_by(key, 'j', name));
            }
        }
        crate::keys::law_namespaces_isolated(key, name, other);
    }
    reveal_with_fuel(apply, 3);
    assert(ops.drop_last().drop_last() =~= Seq::<Op>::empty());
    assert(mark('n', name)[0] == 'n' && mark('z', name)[0] == 'z');
    assert(!hidden.contains_key(mark('n', name)));
}

// ---------------------------------------------------------------------------
// The format marker
// ---------------------------------------------------------------------------
pub fn format_key() -> (key: String)
    ensures
        key@ == "meta/format"@,
{
    "meta/format".to_string()
}

pub open spec fn format_current() -> Seq<u8> {
    encode_utf8("gengis-mimi:2"@)
}

pub open spec fn format_first() -> Seq<u8> {
    encode_utf8("gengis-mimi:1"@)
}

pub open spec fn format_migrating() -> Seq<u8> {
    encode_utf8("gengis-mimi:migrating:1:2"@)
}

pub open spec fn format_restoring() -> Seq<u8> {
    encode_utf8("gengis-mimi:restoring:2"@)
}

pub fn current_format() -> (bytes: Vec<u8>)
    ensures
        bytes@ == format_current(),
{
    text_bytes("gengis-mimi:2")
}

pub fn migrating_format() -> (bytes: Vec<u8>)
    ensures
        bytes@ == format_migrating(),
{
    text_bytes("gengis-mimi:migrating:1:2")
}

pub fn restoring_format() -> (bytes: Vec<u8>)
    ensures
        bytes@ == format_restoring(),
{
    text_bytes("gengis-mimi:restoring:2")
}

/// What opening a database has to do first.
#[derive(Clone, Copy, Debug, PartialEq, Eq, Structural)]
pub enum FormatAction {
    Ready,
    Migrate,
    Initialize,
}

pub open spec fn format_action(marker: Option<Seq<u8>>, migrate: bool, empty: bool) -> std::result::Result<
    FormatAction,
    ErrorView,
> {
    match marker {
        Some(value) => if value == format_current() {
            Ok(FormatAction::Ready)
        } else if (value == format_first() || value == format_migrating()) && migrate {
            Ok(FormatAction::Migrate)
        } else {
            Err(
                ErrorView::Config(
                    "unsupported storage format; use the migrate command for a v1 database"@,
                ),
            )
        },
        None => if empty {
            Ok(FormatAction::Initialize)
        } else {
            Err(ErrorView::Config("database prefix contains an unrecognized keyspace"@))
        },
    }
}

/// Decides how to open a database from its format marker. `empty` says whether
/// the database holds no key at all.
pub fn decide_format(marker: &Option<Vec<u8>>, migrate: bool, empty: bool) -> (result: Result<
    FormatAction,
>)
    ensures
        ({
            let view = match marker {
                Some(v) => Some(v@),
                None => None,
            };
            match result {
                Ok(action) => format_action(view, migrate, empty) == Ok::<FormatAction, ErrorView>(
                    action,
                ),
                Err(e) => format_action(view, migrate, empty) == Err::<FormatAction, ErrorView>(e@),
            }
        }),
{
    match marker {
        Some(value) => {
            if bytes_eq(value.as_slice(), current_format().as_slice()) {
                return Ok(FormatAction::Ready);
            }
            let old = bytes_eq(value.as_slice(), text_bytes("gengis-mimi:1").as_slice())
                || bytes_eq(value.as_slice(), migrating_format().as_slice());
            if old && migrate {
                return Ok(FormatAction::Migrate);
            }
            Err(
                misconfigured(
                    "unsupported storage format; use the migrate command for a v1 database",
                ),
            )
        },
        None => {
            if empty {
                Ok(FormatAction::Initialize)
            } else {
                Err(misconfigured("database prefix contains an unrecognized keyspace"))
            }
        },
    }
}

/// An incomplete migration or restore is never served: only the current marker
/// is ready, and only the first format and an interrupted migration can be
/// migrated.
pub proof fn law_incomplete_not_ready(empty: bool, migrate: bool)
    ensures
        format_action(Some(format_restoring()), migrate, empty) is Err,
        format_action(Some(format_migrating()), false, empty) is Err,
        format_action(Some(format_first()), false, empty) is Err,
        format_action(Some(format_migrating()), true, empty) == Ok::<FormatAction, ErrorView>(
            FormatAction::Migrate,
        ),
{
    reveal_strlit("gengis-mimi:2");
    reveal_strlit("gengis-mimi:1");
    reveal_strlit("gengis-mimi:migrating:1:2");
    reveal_strlit("gengis-mimi:restoring:2");
    let a = "gengis-mimi:2"@;
    let b = "gengis-mimi:1"@;
    let c = "gengis-mimi:migrating:1:2"@;
    let d = "gengis-mimi:restoring:2"@;
    assert(a[12] == '2' && b[12] == '1' && c[12] == 'm' && d[12] == 'r');
    crate::text::lemma_encode_injective(a, b);
    crate::text::lemma_encode_injective(a, c);
    crate::text::lemma_encode_injective(a, d);
    crate::text::lemma_encode_injective(b, d);
    crate::text::lemma_encode_injective(c, d);
}

pub open spec fn ready_verdict(closed: bool, marker: Option<Seq<u8>>) -> crate::error::Verdict {
    if !closed && marker == Some(format_current()) {
        Ok(())
    } else {
        Err(ErrorView::Unavailable)
    }
}

/// A database is ready while it is open and carries the current format marker.
pub fn check_ready(closed: bool, marker: &Option<Vec<u8>>) -> (result: Result<()>)
    ensures
        crate::error::verdict(result) == ready_verdict(
            closed,
            match marker {
                Some(v) => Some(v@),
                None => None,
            },
        ),
{
    if closed {
        return Err(Error::Unavailable);
    }
    match marker {
        Some(value) => if bytes_eq(value.as_slice(), current_format().as_slice()) {
            Ok(())
        } else {
            Err(Error::Unavailable)
        },
        None => Err(Error::Unavailable),
    }
}

// ---------------------------------------------------------------------------
// The disk cache
// ---------------------------------------------------------------------------
/// One path, by its components, contains the other.
pub open spec fn overlapping(a: Seq<Seq<char>>, b: Seq<Seq<char>>) -> bool {
    a.is_prefix_of(b) || b.is_prefix_of(a)
}

fn path_within(a: &Vec<String>, b: &Vec<String>) -> (within: bool)
    ensures
        within == views(a@).is_prefix_of(views(b@)),
{
    let ghost x = views(a@);
    let ghost y = views(b@);
    if a.len() > b.len() {
        return false;
    }
    let mut i: usize = 0;
    while i < a.len()
        invariant
            i <= a@.len() <= b@.len(),
            x == views(a@),
            y == views(b@),
            forall|k: int| 0 <= k < i ==> x[k] == y[k],
        decreases a@.len() - i,
    {
        assert(x[i as int] == a@[i as int]@ && y[i as int] == b@[i as int]@);
        if !crate::text::text_eq(a[i].as_str(), b[i].as_str()) {
            assert(y.subrange(0, x.len() as int)[i as int] == y[i as int]);
            return false;
        }
        i += 1;
    }
    assert(y.subrange(0, x.len() as int) =~= x);
    true
}

/// The cache and the durable data must not lie in one another.
pub fn check_cache_path(cache: &Vec<String>, data: &Vec<String>) -> (result: Result<()>)
    ensures
        crate::error::verdict(result) == if overlapping(views(cache@), views(data@)) {
            Err(ErrorView::Config("cache and durable data directories must not overlap"@))
        } else {
            Ok(())
        },
{
    if path_within(cache, data) || path_within(data, cache) {
        return Err(misconfigured("cache and durable data directories must not overlap"));
    }
    Ok(())
}

/// A cache belongs to one storage configuration. Returns whether its identity
/// has yet to be written.
pub fn check_cache_identity(existing: &Option<Vec<u8>>, identity: &[u8]) -> (result: Result<bool>)
    ensures
        match result {
            Ok(write) => match existing {
                Some(found) => found@ == identity@ && !write,
                None => write,
            },
            Err(e) => existing is Some && existing->0@ != identity@ && e@ == ErrorView::Config(
                "cache belongs to a different storage configuration; choose a new cache_dir"@,
            ),
        },
        match result {
            Ok(write) => cache_judged(
                match existing {
                    Some(found) => Some(found@),
                    None => None,
                },
                identity@,
            ) == Some(write),
            Err(_) => cache_judged(
                match existing {
                    Some(found) => Some(found@),
                    None => None,
                },
                identity@,
            ) is None,
        },
{
    match existing {
        Some(found) => {
            if bytes_eq(found.as_slice(), identity) {
                Ok(false)
            } else {
                Err(
                    misconfigured(
                        "cache belongs to a different storage configuration; choose a new cache_dir",
                    ),
                )
            }
        },
        None => Ok(true),
    }
}

// ---------------------------------------------------------------------------
// What upkeep decides
// ---------------------------------------------------------------------------
/// An index covers the changes up to its revision.
pub proof fn law_index_covers_older_changes(changed: u64, indexed: u64)
    ensures
        covered(revision_bytes(changed), indexed) <==> changed <= indexed,
        is_revision(revision_bytes(changed)),
        forall|value: Seq<u8>| #[trigger] is_revision(value) <==> value.len() == 8,
{
    let value = revision_bytes(changed);
    crate::binary::lemma_le_len(changed as nat, 8);
    assert(revision_bytes(stored_revision_of(value)) == value);
    crate::keys::lemma_revision_injective(stored_revision_of(value), changed);
}

/// Of the change records that were read again, those are retired that are still
/// there and that the index covers, and no others.
pub proof fn law_covered_changes_retire(
    keys: Seq<Seq<char>>,
    values: Seq<Option<Vec<u8>>>,
    indexed: u64,
    n: nat,
    key: Seq<char>,
)
    requires
        n <= keys.len(),
        keys.len() == values.len(),
    ensures
        retired(keys, values, indexed, n).contains(key) <==> exists|i: int|
            0 <= i < n && #[trigger] keys[i] == key && values[i] is Some && stored_revision_of(
                values[i]->0@,
            ) <= indexed,
    decreases n,
{
    if n > 0 {
        let m = (n - 1) as nat;
        law_covered_changes_retire(keys, values, indexed, m, key);
        crate::search::lemma_push_contains(retired(keys, values, indexed, m), keys[n - 1], key);
    }
}

/// A deleted namespace leaves nothing behind: no document, vector, change or
/// generation, no index, no counters, and no trace of the deletion or of a
/// cleanup. Whatever else is in the store stays.
pub proof fn law_erase_removes(db: Kv, name: Seq<char>, key: Seq<char>)
    ensures
        ({
            let prefix = |kind: char| seq![kind, '/'] + name + seq!['/'];
            let own = prefix('d').is_prefix_of(key) || prefix('v').is_prefix_of(key) || prefix(
                'c',
            ).is_prefix_of(key) || prefix('g').is_prefix_of(key) || key == seq!['i', '/'] + name
                || key == seq!['s', '/'] + name || key == seq!['z', '/'] + name || key == seq![
                'j',
                '/',
            ] + name;
            &&& erased(db, name).contains_key(key) <==> db.contains_key(key) && !own
            &&& erased(db, name).contains_key(key) ==> erased(db, name)[key] == db[key]
        }),
{
}

/// How a database opens. An empty prefix becomes a new database and one in the
/// current format is used as it is. One in the first format, or one whose
/// migration was interrupted, is migrated if that was asked for. Anything else
/// is left alone.
pub proof fn law_format_decides(marker: Option<Seq<u8>>, migrate: bool, empty: bool)
    ensures
        ({
            let action = format_action(marker, migrate, empty);
            let current = encode_utf8("gengis-mimi:2"@);
            let old = encode_utf8("gengis-mimi:1"@);
            let migrating = encode_utf8("gengis-mimi:migrating:1:2"@);
            &&& action == Ok::<FormatAction, ErrorView>(FormatAction::Initialize) <==> marker is None
                && empty
            &&& action == Ok::<FormatAction, ErrorView>(FormatAction::Ready) <==> marker == Some(
                current,
            )
            &&& action == Ok::<FormatAction, ErrorView>(FormatAction::Migrate) <==> migrate && (
            marker == Some(old) || marker == Some(migrating))
            &&& marker is None && !empty ==> action == Err::<FormatAction, ErrorView>(
                ErrorView::Config("database prefix contains an unrecognized keyspace"@),
            )
            &&& marker is Some && action is Err ==> action == Err::<FormatAction, ErrorView>(
                ErrorView::Config(
                    "unsupported storage format; use the migrate command for a v1 database"@,
                ),
            )
        }),
{
    lemma_formats_differ();
}

proof fn lemma_formats_differ()
    ensures
        encode_utf8("gengis-mimi:2"@) != encode_utf8("gengis-mimi:1"@),
        encode_utf8("gengis-mimi:2"@) != encode_utf8("gengis-mimi:migrating:1:2"@),
{
    reveal_strlit("gengis-mimi:2");
    reveal_strlit("gengis-mimi:1");
    reveal_strlit("gengis-mimi:migrating:1:2");
    crate::text::lemma_encode_injective("gengis-mimi:2"@, "gengis-mimi:1"@);
    crate::text::lemma_encode_injective("gengis-mimi:2"@, "gengis-mimi:migrating:1:2"@);
    assert("gengis-mimi:2"@[12] != "gengis-mimi:1"@[12]);
    assert("gengis-mimi:2"@.len() != "gengis-mimi:migrating:1:2"@.len());
}

/// A database is ready if it is open and its format is the current one.
pub proof fn law_open_current_database_is_ready(closed: bool, marker: Option<Seq<u8>>)
    ensures
        ready_verdict(closed, marker) is Ok <==> !closed && marker == Some(
            encode_utf8("gengis-mimi:2"@),
        ),
        ready_verdict(closed, marker) is Err ==> ready_verdict(closed, marker) == Err::<
            (),
            ErrorView,
        >(ErrorView::Unavailable),
{
}

/// Two directories overlap if one is the other, or lies within it.
pub proof fn law_directories_overlap(a: Seq<Seq<char>>, b: Seq<Seq<char>>, rest: Seq<Seq<char>>)
    ensures
        overlapping(a, a + rest),
        overlapping(a + rest, a),
        overlapping(a, b) ==> overlapping(b, a),
        overlapping(a, b) && a.len() <= b.len() ==> b.take(a.len() as int) == a,
{
    assert((a + rest).take(a.len() as int) =~= a);
    if overlapping(a, b) && a.len() <= b.len() && b.is_prefix_of(a) {
        assert(b.len() == a.len());
        assert(a.take(b.len() as int) =~= a);
        assert(b.take(a.len() as int) =~= a);
    }
}

/// The key does not belong to the generation whose keys start like this.
pub open spec fn outside_of(key: Seq<char>, root: Seq<char>) -> bool {
    key.len() < root.len() || key.take(root.len() as int) != root
}

/// Whether the identity of a cache has yet to be written; nothing if the cache is
/// that of another database.
pub open spec fn cache_judged(existing: Option<Seq<u8>>, identity: Seq<u8>) -> Option<bool> {
    match existing {
        None => Some(true),
        Some(found) => if found == identity {
            Some(false)
        } else {
            None
        },
    }
}

/// Cleanup keeps every key of the active generation and removes every other one.
pub proof fn law_cleanup_spares_the_active_generation(root: Seq<char>, key: Seq<char>)
    ensures
        !outside_of(root + key, root),
        outside_of(key, root) <==> !root.is_prefix_of(key),
{
    assert((root + key).take(root.len() as int) =~= root);
}

/// A cache is used for one database only: a fresh one is marked, one with the
/// same mark is used, and any other is refused.
pub proof fn law_caches_belong_to_one_database(identity: Seq<u8>, other: Seq<u8>)
    ensures
        cache_judged(None, identity) == Some(true),
        cache_judged(Some(identity), identity) == Some(false),
        other != identity ==> cache_judged(Some(other), identity) is None,
{
}

/// A deletion first hides the namespace, by removing its schema, and leaves a mark
/// by which it can be resumed.
pub proof fn law_deletion_is_recorded(db: Kv, name: Seq<char>)
    ensures
        ({
            let after = apply(db, intent_ops(name));
            &&& !after.contains_key(seq!['n', '/'] + name)
            &&& after.contains_key(seq!['z', '/'] + name)
            &&& after[seq!['z', '/'] + name] == encode_utf8("delete"@)
        }),
{
    let ops = intent_ops(name);
    reveal_with_fuel(apply, 3);
    assert(ops.drop_last().drop_last() =~= Seq::<Op>::empty());
    assert(ops.drop_last().last() == ops[0] && ops.last() == ops[1]);
    assert(mark('n', name)[0] == 'n' && mark('z', name)[0] == 'z');
}

/// Staged operations are all committed, in order: in batches that end with the
/// operation that brings them to 1 MiB, and a last one of less.
pub proof fn law_stages_close_at_a_mebibyte(
    list: Seq<Seq<Op>>,
    last: Seq<Op>,
    ops: Seq<Op>,
    i: int,
)
    requires
        staged(list, last, ops),
    ensures
        flattened(list) + last == ops,
        output_bytes(last, last.len()) < 1048576,
        0 <= i < list.len() ==> list[i].len() > 0 && output_bytes(list[i], list[i].len())
            >= 1048576 && output_bytes(list[i], (list[i].len() - 1) as nat) < 1048576,
        flattened(Seq::empty()) == Seq::<Op>::empty(),
        flattened(list.push(last)) == flattened(list) + last,
{
    if 0 <= i < list.len() {
        assert(full_batch(list[i]));
    }
    assert(list.push(last).drop_last() =~= list);
}

} // verus!
