//! The primary data of a namespace as a mathematical state, and how the keys of
//! the store represent it.
use vstd::prelude::*;

use crate::keys::{
    apply, apply_op, delete_op, lemma_apply_untouched, lemma_mark_not_member, lemma_member_belongs,
    lemma_member_injective, mark, member, put_op, revision_bytes, Kv, Op,
};
use crate::model::{valid_id, NamespaceStats};

verus! {

/// What the store keeps of a document: its encoded attributes and, if it has
/// one, its encoded vector.
pub struct Stored {
    pub document: Seq<u8>,
    pub vector: Option<Seq<u8>>,
}

pub open spec fn stored_size(stored: Stored) -> nat {
    stored.document.len() + match stored.vector {
        Some(v) => v.len(),
        None => 0,
    }
}

/// The live documents of a namespace, and per changed ID the revision of its
/// latest change that no index covers.
pub struct NamespaceState {
    pub documents: Map<Seq<char>, Stored>,
    pub changes: Map<Seq<char>, u64>,
}

/// The sum of the sizes of all documents.
pub open spec fn total_bytes(documents: Map<Seq<char>, Stored>) -> nat
    decreases documents.dom().len(),
    when documents.dom().finite()
{
    if documents.dom().len() == 0 {
        0
    } else {
        let id = documents.dom().choose();
        stored_size(documents[id]) + total_bytes(documents.remove(id))
    }
}

pub proof fn lemma_total_remove(documents: Map<Seq<char>, Stored>, id: Seq<char>)
    requires
        documents.dom().finite(),
        documents.contains_key(id),
    ensures
        total_bytes(documents) == stored_size(documents[id]) + total_bytes(documents.remove(id)),
    decreases documents.dom().len(),
{
    let c = documents.dom().choose();
    assert(documents.dom().contains(id));
    if c != id {
        assert(documents.dom().contains(c));
        let without = documents.remove(c);
        lemma_total_remove(without, id);
        let other = documents.remove(id);
        lemma_total_remove(other, c);
        assert(without.remove(id) =~= other.remove(c));
        assert(without[id] == documents[id]);
        assert(other[c] == documents[c]);
    }
}

pub proof fn lemma_total_insert(documents: Map<Seq<char>, Stored>, id: Seq<char>, stored: Stored)
    requires
        documents.dom().finite(),
    ensures
        total_bytes(documents.insert(id, stored)) == total_bytes(documents.remove(id))
            + stored_size(stored),
        documents.insert(id, stored).dom().finite(),
{
    let after = documents.insert(id, stored);
    assert(after.dom() =~= documents.dom().insert(id));
    lemma_total_remove(after, id);
    assert(after.remove(id) =~= documents.remove(id));
}

pub open spec fn vector_represented(
    db: Kv,
    name: Seq<char>,
    id: Seq<char>,
    vector: Option<Seq<u8>>,
) -> bool {
    match vector {
        Some(v) => db.contains_key(member('v', name, id)) && db[member('v', name, id)] == v,
        None => !db.contains_key(member('v', name, id)),
    }
}

pub open spec fn id_represented(db: Kv, name: Seq<char>, state: NamespaceState, id: Seq<char>) -> bool {
    &&& db.contains_key(member('d', name, id)) == state.documents.contains_key(id)
    &&& state.documents.contains_key(id) ==> db[member('d', name, id)]
        == state.documents[id].document && vector_represented(
        db,
        name,
        id,
        state.documents[id].vector,
    )
    &&& !state.documents.contains_key(id) ==> !db.contains_key(member('v', name, id))
    &&& db.contains_key(member('c', name, id)) == state.changes.contains_key(id)
    &&& state.changes.contains_key(id) ==> db[member('c', name, id)] == revision_bytes(
        state.changes[id],
    )
}

/// The keys under a namespace's document, vector and change prefixes are
/// exactly those of the state.
pub open spec fn represents(db: Kv, name: Seq<char>, state: NamespaceState) -> bool {
    forall|id: Seq<char>| #[trigger] id_represented(db, name, state, id)
}

/// The counters describe the state.
pub open spec fn stats_match(stats: NamespaceStats, state: NamespaceState) -> bool {
    &&& state.documents.dom().finite()
    &&& state.changes.dom().finite()
    &&& stats.documents == state.documents.dom().len()
    &&& stats.bytes == total_bytes(state.documents)
    &&& stats.pending_documents == state.changes.dom().len()
    &&& forall|id: Seq<char>| #[trigger]
        state.changes.contains_key(id) ==> state.changes[id] <= stats.revision
}

/// One accepted operation: a document to store in place of whatever the ID
/// held, or nothing.
pub struct Change {
    pub id: Seq<char>,
    pub new: Option<Stored>,
}

pub open spec fn step(state: NamespaceState, change: Change, revision: u64) -> NamespaceState {
    NamespaceState {
        documents: match change.new {
            Some(stored) => state.documents.insert(change.id, stored),
            None => state.documents.remove(change.id),
        },
        changes: state.changes.insert(change.id, revision),
    }
}

/// The state after the first `n` changes.
pub open spec fn steps(state: NamespaceState, changes: Seq<Change>, revision: u64, n: nat) -> NamespaceState
    decreases n,
{
    if n == 0 {
        state
    } else {
        step(steps(state, changes, revision, (n - 1) as nat), changes[n - 1], revision)
    }
}

/// The operations on the store for one change.
pub open spec fn change_ops(name: Seq<char>, change: Change, revision: u64) -> Seq<Op> {
    match change.new {
        Some(stored) => seq![
            match stored.vector {
                Some(v) => put_op(member('v', name, change.id), v),
                None => delete_op(member('v', name, change.id)),
            },
            put_op(member('d', name, change.id), stored.document),
            put_op(member('c', name, change.id), revision_bytes(revision)),
        ],
        None => seq![
            delete_op(member('d', name, change.id)),
            delete_op(member('v', name, change.id)),
            put_op(member('c', name, change.id), revision_bytes(revision)),
        ],
    }
}

pub open spec fn changes_ops(name: Seq<char>, changes: Seq<Change>, revision: u64, n: nat) -> Seq<Op>
    decreases n,
{
    if n == 0 {
        Seq::empty()
    } else {
        changes_ops(name, changes, revision, (n - 1) as nat) + change_ops(
            name,
            changes[n - 1],
            revision,
        )
    }
}

pub proof fn lemma_change_represented(
    db: Kv,
    name: Seq<char>,
    state: NamespaceState,
    change: Change,
    revision: u64,
)
    requires
        valid_id(name),
        represents(db, name, state),
    ensures
        represents(
            apply(db, change_ops(name, change, revision)),
            name,
            step(state, change, revision),
        ),
{
    let ops = change_ops(name, change, revision);
    let after = apply(db, ops);
    reveal_with_fuel(apply, 4);
    assert(ops.drop_last().drop_last().drop_last() =~= Seq::<Op>::empty());
    let d = member('d', name, change.id);
    let v = member('v', name, change.id);
    let c = member('c', name, change.id);
    assert(after == apply_op(apply_op(apply_op(db, ops[0]), ops[1]), ops[2]));
    assert(d[0] == 'd' && v[0] == 'v' && c[0] == 'c');
    let state2 = step(state, change, revision);
    assert forall|id: Seq<char>| #[trigger] id_represented(after, name, state2, id) by {
        assert(id_represented(db, name, state, id));
        let d2 = member('d', name, id);
        let v2 = member('v', name, id);
        let c2 = member('c', name, id);
        assert(d2[0] == 'd' && v2[0] == 'v' && c2[0] == 'c');
        if id != change.id {
            if d2 == d {
                lemma_member_injective('d', name, id, 'd', name, change.id);
            }
            if v2 == v {
                lemma_member_injective('v', name, id, 'v', name, change.id);
            }
            if c2 == c {
                lemma_member_injective('c', name, id, 'c', name, change.id);
            }
        }
    }
}

pub proof fn lemma_changes_represented(
    db: Kv,
    name: Seq<char>,
    state: NamespaceState,
    changes: Seq<Change>,
    revision: u64,
    n: nat,
)
    requires
        valid_id(name),
        represents(db, name, state),
        n <= changes.len(),
    ensures
        represents(
            apply(db, changes_ops(name, changes, revision, n)),
            name,
            steps(state, changes, revision, n),
        ),
    decreases n,
{
    if n > 0 {
        let m = (n - 1) as nat;
        lemma_changes_represented(db, name, state, changes, revision, m);
        let before = changes_ops(name, changes, revision, m);
        lemma_change_represented(
            apply(db, before),
            name,
            steps(state, changes, revision, m),
            changes[n - 1],
            revision,
        );
        crate::keys::lemma_apply_concat(db, before, change_ops(name, changes[n - 1], revision));
    }
}

/// Every key that the changes touch belongs to their namespace.
pub proof fn lemma_changes_belong(
    name: Seq<char>,
    changes: Seq<Change>,
    revision: u64,
    n: nat,
    i: int,
)
    requires
        n <= changes.len(),
        0 <= i < changes_ops(name, changes, revision, n).len(),
    ensures
        crate::keys::belongs(changes_ops(name, changes, revision, n)[i].key, name),
    decreases n,
{
    let m = (n - 1) as nat;
    let before = changes_ops(name, changes, revision, m);
    let last = change_ops(name, changes[n - 1], revision);
    if i < before.len() {
        lemma_changes_belong(name, changes, revision, m, i);
    } else {
        let id = changes[n - 1].id;
        assert(changes_ops(name, changes, revision, n)[i] == last[i - before.len()]);
        lemma_member_belongs('d', name, id);
        lemma_member_belongs('v', name, id);
        lemma_member_belongs('c', name, id);
    }
}

/// Setting a mark changes no document, vector or change of any namespace.
pub proof fn lemma_mark_keeps_state(
    db: Kv,
    kind: char,
    marked: Seq<char>,
    value: Option<Seq<u8>>,
    name: Seq<char>,
    state: NamespaceState,
)
    requires
        valid_id(marked),
        valid_id(name),
        represents(db, name, state),
    ensures
        represents(apply_op(db, Op { key: mark(kind, marked), value }), name, state),
{
    let after = apply_op(db, Op { key: mark(kind, marked), value });
    assert forall|id: Seq<char>| #[trigger] id_represented(after, name, state, id) by {
        assert(id_represented(db, name, state, id));
        lemma_mark_not_member(kind, marked, 'd', name);
        lemma_mark_not_member(kind, marked, 'v', name);
        lemma_mark_not_member(kind, marked, 'c', name);
        lemma_member_belongs('d', name, id);
        lemma_member_belongs('v', name, id);
        lemma_member_belongs('c', name, id);
    }
}

/// Operations on the keys of one namespace leave every other as it is.
pub proof fn lemma_other_namespace_kept(
    db: Kv,
    ops: Seq<Op>,
    name: Seq<char>,
    other: Seq<char>,
    state: NamespaceState,
)
    requires
        valid_id(name),
        valid_id(other),
        name != other,
        represents(db, other, state),
        forall|i: int| 0 <= i < ops.len() ==> crate::keys::belongs((#[trigger] ops[i]).key, name),
    ensures
        represents(apply(db, ops), other, state),
{
    let after = apply(db, ops);
    assert forall|id: Seq<char>| #[trigger] id_represented(after, other, state, id) by {
        assert(id_represented(db, other, state, id));
        lemma_foreign_key(db, ops, name, other, 'd', id);
        lemma_foreign_key(db, ops, name, other, 'v', id);
        lemma_foreign_key(db, ops, name, other, 'c', id);
    }
}

proof fn lemma_foreign_key(
    db: Kv,
    ops: Seq<Op>,
    name: Seq<char>,
    other: Seq<char>,
    kind: char,
    id: Seq<char>,
)
    requires
        valid_id(name),
        valid_id(other),
        name != other,
        forall|i: int| 0 <= i < ops.len() ==> crate::keys::belongs((#[trigger] ops[i]).key, name),
    ensures
        apply(db, ops).contains_key(member(kind, other, id)) == db.contains_key(
            member(kind, other, id),
        ),
        db.contains_key(member(kind, other, id)) ==> apply(db, ops)[member(kind, other, id)]
            == db[member(kind, other, id)],
{
    let key = member(kind, other, id);
    lemma_member_belongs(kind, other, id);
    assert forall|i: int| 0 <= i < ops.len() implies (#[trigger] ops[i]).key != key by {
        if ops[i].key == key {
            crate::keys::law_namespaces_isolated(key, name, other);
        }
    }
    lemma_apply_untouched(db, ops, key);
}

/// The bytes of a namespace are those of its documents and of their vectors: none
/// without documents, and with one more document as many more as it takes.
pub proof fn law_bytes_add_up(documents: Map<Seq<char>, Stored>, id: Seq<char>, stored: Stored)
    requires
        documents.dom().finite(),
        !documents.contains_key(id),
    ensures
        total_bytes(Map::empty()) == 0,
        total_bytes(documents.insert(id, stored)) == total_bytes(documents) + stored.document.len()
            + match stored.vector {
            Some(vector) => vector.len(),
            None => 0,
        },
{
    lemma_total_insert(documents, id, stored);
    assert(documents.remove(id) =~= documents);
    assert(Map::<Seq<char>, Stored>::empty().dom() =~= Set::<Seq<char>>::empty());
}

/// Counters that match a state are the number of its documents, their bytes and
/// the number of its changed IDs, none of which changed after the revision.
pub proof fn law_counters_describe(stats: NamespaceStats, state: NamespaceState, id: Seq<char>)
    requires
        stats_match(stats, state),
    ensures
        stats.documents == state.documents.dom().len(),
        stats.bytes == total_bytes(state.documents),
        stats.pending_documents == state.changes.dom().len(),
        state.changes.contains_key(id) ==> state.changes[id] <= stats.revision,
{
}

} // verus!
