//! What happens to a namespace after an index of it was built, and why the
//! pending changes tell it all.
use vstd::prelude::*;
use vstd::utf8::*;

use crate::agreement::{attributes_by_id, distinct_documents, lemma_attributes_by_id};
use crate::binary::lemma_le_len;
use crate::bm25::{in_sync, Documents};
use crate::engine::lemma_steps_untouched;
use crate::error::ErrorView;
use crate::filtering::{live_of, unchanged, Live};
use crate::keys::{lemma_revision_injective, member, members, revision_bytes};
use crate::maintenance::without_changes;
use crate::model::Document;
use crate::search::{
    change_id, change_verdict, decoded_text, pending_set, stored_revision_of, StoredRow,
};
use crate::store::{steps, Change, NamespaceState, Stored};
use crate::text::{lemma_encode_concat, lemma_encode_injective};

verus! {

pub enum Event {
    /// An accepted batch is committed.
    Write { changes: Seq<Change>, revision: u64 },
    /// The change records of some IDs are cleaned up.
    Retire { ids: Set<Seq<char>> },
}

pub open spec fn after_event(state: NamespaceState, event: Event) -> NamespaceState {
    match event {
        Event::Write { changes, revision } => steps(state, changes, revision, changes.len()),
        Event::Retire { ids } => without_changes(state, ids),
    }
}

/// The state after the first `n` events.
pub open spec fn after_events(state: NamespaceState, events: Seq<Event>, n: nat) -> NamespaceState
    decreases n,
{
    if n == 0 {
        state
    } else {
        after_event(after_events(state, events, (n - 1) as nat), events[n - 1])
    }
}

/// An event after an index of revision `built`: a batch has a later revision, and
/// a cleanup removes none but the records that the index covers.
pub open spec fn follows(state: NamespaceState, event: Event, built: u64) -> bool {
    match event {
        Event::Write { changes, revision } => revision > built,
        Event::Retire { ids } => forall|id: Seq<char>| #[trigger]
            ids.contains(id) && state.changes.contains_key(id) ==> state.changes[id] <= built,
    }
}

pub open spec fn all_follow(state: NamespaceState, events: Seq<Event>, built: u64) -> bool {
    forall|n: nat|
        n < events.len() ==> follows(
            #[trigger] after_events(state, events, n),
            events[n as int],
            built,
        )
}

/// The IDs whose latest change an index of that revision does not cover.
pub open spec fn pending_ids(state: NamespaceState, built: u64) -> Set<Seq<char>> {
    Set::new(|id: Seq<char>| state.changes.contains_key(id) && state.changes[id] > built)
}

/// The ID has the same document in both states, or none.
pub open spec fn same_document(a: NamespaceState, b: NamespaceState, id: Seq<char>) -> bool {
    &&& a.documents.contains_key(id) == b.documents.contains_key(id)
    &&& a.documents.contains_key(id) ==> a.documents[id] == b.documents[id]
}

proof fn lemma_steps_touched(
    state: NamespaceState,
    changes: Seq<Change>,
    revision: u64,
    n: nat,
    i: int,
)
    requires
        0 <= i < n <= changes.len(),
    ensures
        steps(state, changes, revision, n).changes.contains_key(changes[i].id),
        steps(state, changes, revision, n).changes[changes[i].id] == revision,
    decreases n,
{
    if i < n - 1 {
        lemma_steps_touched(state, changes, revision, (n - 1) as nat, i);
    }
}

proof fn lemma_events(
    state: NamespaceState,
    events: Seq<Event>,
    built: u64,
    n: nat,
    id: Seq<char>,
)
    requires
        n <= events.len(),
        all_follow(state, events, built),
    ensures
        pending_ids(after_events(state, events, n), built).contains(id) || same_document(
            after_events(state, events, n),
            state,
            id,
        ),
    decreases n,
{
    if n > 0 {
        let m = (n - 1) as nat;
        lemma_events(state, events, built, m, id);
        let before = after_events(state, events, m);
        assert(follows(after_events(state, events, m), events[m as int], built));
        match events[m as int] {
            Event::Write { changes, revision } => {
                if exists|i: int| 0 <= i < changes.len() && (#[trigger] changes[i]).id == id {
                    let i = choose|i: int|
                        0 <= i < changes.len() && (#[trigger] changes[i]).id == id;
                    lemma_steps_touched(before, changes, revision, changes.len(), i);
                } else {
                    lemma_steps_untouched(before, changes, revision, changes.len(), id);
                }
            },
            Event::Retire { ids } => {
                if before.changes.contains_key(id) && before.changes[id] > built {
                    assert(!(ids.contains(id) && before.changes.contains_key(id)));
                }
            },
        }
    }
}

// ---------------------------------------------------------------------------
// Change records
// ---------------------------------------------------------------------------
/// The row is the change record of the ID.
pub open spec fn records_change(
    row: StoredRow,
    name: Seq<char>,
    state: NamespaceState,
    id: Seq<char>,
) -> bool {
    &&& state.changes.contains_key(id)
    &&& row.key@ == encode_utf8(member('c', name, id))
    &&& row.value@ == revision_bytes(state.changes[id])
}

/// The rows are the change records of the state.
pub open spec fn change_rows(rows: Seq<StoredRow>, name: Seq<char>, state: NamespaceState) -> bool {
    &&& forall|i: int|
        0 <= i < rows.len() ==> exists|id: Seq<char>| #[trigger]
            records_change(#[trigger] rows[i], name, state, id)
    &&& forall|id: Seq<char>| #[trigger]
        state.changes.contains_key(id) ==> exists|i: int|
            0 <= i < rows.len() && records_change(#[trigger] rows[i], name, state, id)
}

proof fn lemma_change_row(
    row: StoredRow,
    name: Seq<char>,
    state: NamespaceState,
    id: Seq<char>,
    built: u64,
)
    requires
        records_change(row, name, state, id),
    ensures
        change_verdict(row, members('c', name), built) == Ok::<Option<Seq<char>>, ErrorView>(
            if state.changes[id] > built {
                Some(id)
            } else {
                None
            },
        ),
{
    let prefix = members('c', name);
    let revision = state.changes[id];
    lemma_le_len(revision as nat, 8);
    assert(revision_bytes(stored_revision_of(row.value@)) == row.value@);
    lemma_revision_injective(stored_revision_of(row.value@), revision);
    lemma_encode_concat(prefix, id);
    assert(change_id(row, prefix) =~= encode_utf8(id));
    encode_utf8_valid_utf8(id);
    assert(encode_utf8(decoded_text(encode_utf8(id))) == encode_utf8(id));
    lemma_encode_injective(decoded_text(encode_utf8(id)), id);
}

proof fn lemma_pending_set(
    rows: Seq<StoredRow>,
    name: Seq<char>,
    state: NamespaceState,
    built: u64,
    n: nat,
)
    requires
        n <= rows.len(),
        change_rows(rows, name, state),
    ensures
        pending_set(rows, members('c', name), built, n) is Ok,
        forall|id: Seq<char>| #[trigger]
            pending_set(rows, members('c', name), built, n)->Ok_0.contains(id)
                <==> pending_ids(state, built).contains(id) && exists|i: int|
                0 <= i < n && records_change(#[trigger] rows[i], name, state, id),
    decreases n,
{
    if n > 0 {
        let m = (n - 1) as nat;
        lemma_pending_set(rows, name, state, built, m);
        let row = rows[n - 1];
        let own = choose|id: Seq<char>| #[trigger] records_change(row, name, state, id);
        assert(records_change(rows[n - 1], name, state, own));
        lemma_change_row(row, name, state, own, built);
        let before = pending_set(rows, members('c', name), built, m)->Ok_0;
        let after = pending_set(rows, members('c', name), built, n)->Ok_0;
        assert forall|id: Seq<char>| #[trigger] after.contains(id) <==> pending_ids(
            state,
            built,
        ).contains(id) && exists|i: int|
            0 <= i < n && records_change(#[trigger] rows[i], name, state, id) by {
            assert(before.contains(id) <==> pending_ids(state, built).contains(id) && exists|i: int|
                0 <= i < m && records_change(#[trigger] rows[i], name, state, id));
            if records_change(row, name, state, id) {
                lemma_change_row(row, name, state, id, built);
                lemma_encode_concat(members('c', name), id);
                lemma_encode_concat(members('c', name), own);
                let skip = encode_utf8(members('c', name)).len() as int;
                assert(row.key@.skip(skip) =~= encode_utf8(id));
                assert(row.key@.skip(skip) =~= encode_utf8(own));
                lemma_encode_injective(id, own);
            }
        }
    } else {
        assert(pending_set(rows, members('c', name), built, 0)->Ok_0 =~= Set::empty());
    }
}

/// Whatever was written and cleaned up after an index was built, the pending
/// changes read from the change records name every ID whose document is not what
/// it was then.
pub proof fn law_pending_covers_changes(
    state: NamespaceState,
    events: Seq<Event>,
    built: u64,
    name: Seq<char>,
    rows: Seq<StoredRow>,
)
    requires
        all_follow(state, events, built),
        change_rows(rows, name, after_events(state, events, events.len())),
    ensures
        ({
            let now = after_events(state, events, events.len());
            &&& pending_set(rows, members('c', name), built, rows.len()) == Ok::<
                Set<Seq<char>>,
                ErrorView,
            >(pending_ids(now, built))
            &&& forall|id: Seq<char>|
                !pending_ids(now, built).contains(id) ==> #[trigger] same_document(now, state, id)
        }),
{
    let now = after_events(state, events, events.len());
    lemma_pending_set(rows, name, now, built, rows.len());
    assert(pending_set(rows, members('c', name), built, rows.len())->Ok_0 =~= pending_ids(
        now,
        built,
    ));
    assert forall|id: Seq<char>| !pending_ids(now, built).contains(id) implies
        #[trigger] same_document(now, state, id) by {
        lemma_events(state, events, built, events.len(), id);
    }
}

// ---------------------------------------------------------------------------
// Documents
// ---------------------------------------------------------------------------
/// What reading a stored document gives.
pub type Reading = spec_fn(Stored) -> Live;

/// The documents of a state as they are read.
pub open spec fn live_documents(state: NamespaceState, read: Reading) -> Map<Seq<char>, Live> {
    state.documents.map_values(read)
}

/// The attributes of documents.
pub open spec fn live_attributes(live: Map<Seq<char>, Live>) -> Documents {
    live.map_values(|document: Live| document.attributes)
}

/// The documents are what was read of the state, each once.
pub open spec fn documents_read(
    documents: Seq<Document>,
    state: NamespaceState,
    read: Reading,
) -> bool {
    &&& distinct_documents(documents)
    &&& forall|i: int|
        0 <= i < documents.len() ==> state.documents.contains_key((#[trigger] documents[i]).id@)
            && live_of(documents[i]) == read(state.documents[documents[i].id@])
    &&& forall|id: Seq<char>| #[trigger]
        state.documents.contains_key(id) ==> exists|i: int|
            0 <= i < documents.len() && (#[trigger] documents[i]).id@ == id
}

/// The documents that are not pending are as the index has them: what searches
/// over an index take from the pending changes holds after any writes.
pub proof fn law_unpending_documents_unchanged(
    state: NamespaceState,
    events: Seq<Event>,
    built: u64,
    documents: Seq<Document>,
    read: Reading,
)
    requires
        all_follow(state, events, built),
        documents_read(documents, state, read),
    ensures
        ({
            let now = after_events(state, events, events.len());
            let live = live_documents(now, read);
            &&& unchanged(live, documents, pending_ids(now, built))
            &&& in_sync(
                live_attributes(live),
                attributes_by_id(documents, documents.len()),
                pending_ids(now, built),
            )
        }),
{
    let now = after_events(state, events, events.len());
    let live = live_documents(now, read);
    let dirty = pending_ids(now, built);
    let indexed = attributes_by_id(documents, documents.len());
    lemma_attributes_by_id(documents, documents.len());
    assert forall|id: Seq<char>| !dirty.contains(id) && #[trigger] live.contains_key(id) implies
        exists|i: int|
        0 <= i < documents.len() && (#[trigger] documents[i]).id@ == id && live[id] == live_of(
            documents[i],
        ) by {
        lemma_events(state, events, built, events.len(), id);
        assert(state.documents.contains_key(id));
        let i = choose|i: int| 0 <= i < documents.len() && (#[trigger] documents[i]).id@ == id;
        assert(live[id] == live_of(documents[i]));
    }
    assert forall|i: int|
        0 <= i < documents.len() && !dirty.contains(
            (#[trigger] documents[i]).id@,
        ) implies live.contains_key(documents[i].id@) && live[documents[i].id@] == live_of(
        documents[i],
    ) by {
        lemma_events(state, events, built, events.len(), documents[i].id@);
    }
    assert forall|id: Seq<char>| !dirty.contains(id) implies (
    #[trigger] live_attributes(live).contains_key(id)) == indexed.contains_key(id) && (
    live_attributes(live).contains_key(id) ==> live_attributes(live)[id] == indexed[id]) by {
        if live.contains_key(id) {
            let i = choose|i: int|
                0 <= i < documents.len() && (#[trigger] documents[i]).id@ == id && live[id]
                    == live_of(documents[i]);
            assert(indexed[documents[i].id@] == documents[i].attributes@);
        }
        if indexed.contains_key(id) {
            let i = choose|i: int| 0 <= i < documents.len() && (#[trigger] documents[i]).id@ == id;
            assert(live.contains_key(documents[i].id@));
        }
    }
}

} // verus!
