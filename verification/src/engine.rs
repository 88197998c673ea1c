//! Decisions of the database engine: what a request may do, and which keys of
//! the store it changes. The store itself is read and written by the caller.
use vstd::prelude::*;
use vstd::string::*;
use vstd::utf8::*;

use crate::binary::{
    block, decoded, encode_vector, from_le, law_vector_round_trip, lemma_le_from, push_le,
    vector_rows, Row,
};
use crate::config::LimitsConfig;
use crate::error::{invalid, over_limit, verdict, ErrorView, Result, Verdict};
use crate::keys::{
    apply, belongs, belongs_by, change_key, delete, document_key, lemma_apply_untouched,
    lemma_fits_64, mark, mark_key, member, ops_view, put, put_op, revision_bytes, vector_key,
    KeyOp, Kv, Op,
};
use crate::model::{
    id_verdict, lemma_id_size, valid_id, validate_id, Document, NamespaceConfig, NamespaceStats,
    WriteRequest, WriteResult, MAX_BATCH_OPERATIONS, MAX_BODY_BYTES, MAX_DOCUMENT_BYTES,
};
use crate::store::{
    change_ops, changes_ops, id_represented, lemma_changes_belong, lemma_changes_represented,
    lemma_mark_keeps_state, lemma_other_namespace_kept, lemma_total_insert, lemma_total_remove,
    represents, stats_match, steps, stored_size, total_bytes, Change, NamespaceState, Stored,
};
use crate::text::views;
use crate::textmap::TextMap;

verus! {

pub const MAX_ATTRIBUTES: usize = 64;

// ---------------------------------------------------------------------------
// Batches
// ---------------------------------------------------------------------------
/// The IDs that a batch names, upserts first.
pub open spec fn batch_ids(request: WriteRequest) -> Seq<Seq<char>> {
    request.upsert@.map_values(|d: Document| d.id@) + views(request.delete@)
}

pub open spec fn batch_id_verdict(ids: Seq<Seq<char>>, i: int) -> Verdict {
    if id_verdict(ids[i]) is Err {
        id_verdict(ids[i])
    } else if ids.take(i).contains(ids[i]) {
        Err(ErrorView::Invalid("a document ID may occur only once per batch"@))
    } else {
        Ok(())
    }
}

/// The first offending ID among the first `n` decides.
pub open spec fn batch_ids_verdict(ids: Seq<Seq<char>>, n: nat) -> Verdict
    decreases n,
{
    if n == 0 {
        Ok(())
    } else if batch_ids_verdict(ids, (n - 1) as nat) is Err {
        batch_ids_verdict(ids, (n - 1) as nat)
    } else {
        batch_id_verdict(ids, n - 1)
    }
}

pub open spec fn batch_verdict(name: Seq<char>, request: WriteRequest) -> Verdict {
    let ids = batch_ids(request);
    if id_verdict(name) is Err {
        id_verdict(name)
    } else if !(1 <= ids.len() <= MAX_BATCH_OPERATIONS) {
        Err(ErrorView::Invalid("batch requires 1–1000 operations"@))
    } else {
        batch_ids_verdict(ids, ids.len())
    }
}

proof fn lemma_first_id_decides(ids: Seq<Seq<char>>, i: nat, n: nat)
    requires
        i <= n,
        batch_ids_verdict(ids, i) is Err,
    ensures
        batch_ids_verdict(ids, n) == batch_ids_verdict(ids, i),
    decreases n,
{
    if i < n {
        lemma_first_id_decides(ids, i, (n - 1) as nat);
    }
}

/// Accepted IDs are valid and occur once.
pub proof fn lemma_accepted_ids(ids: Seq<Seq<char>>, n: nat)
    requires
        n <= ids.len(),
        batch_ids_verdict(ids, n) is Ok,
    ensures
        forall|i: int| 0 <= i < n ==> valid_id(#[trigger] ids[i]),
        forall|i: int, j: int| 0 <= i < j < n ==> ids[i] != ids[j],
    decreases n,
{
    if n > 0 {
        lemma_accepted_ids(ids, (n - 1) as nat);
        assert(batch_id_verdict(ids, n - 1) is Ok);
        assert forall|i: int| 0 <= i < n - 1 implies #[trigger] ids[i] != ids[n - 1] by {
            if ids[i] == ids[n - 1] {
                assert(ids.take(n - 1)[i] == ids[n - 1]);
                assert(ids.take(n - 1).contains(ids[n - 1]));
            }
        }
    }
}

fn batch_id(request: &WriteRequest, i: usize) -> (id: &String)
    requires
        i < request.upsert@.len() + request.delete@.len(),
    ensures
        id@ == batch_ids(*request)[i as int],
{
    let ups = request.upsert.len();
    if i < ups {
        &request.upsert[i].id
    } else {
        &request.delete[i - ups]
    }
}

/// Checks everything about a batch that needs no stored data.
pub fn validate_batch(name: &str, request: &WriteRequest) -> (result: Result<()>)
    ensures
        verdict(result) == batch_verdict(name@, *request),
{
    match validate_id(name) {
        Ok(_) => {},
        Err(e) => return Err(e),
    }
    let ups = request.upsert.len();
    let dels = request.delete.len();
    let ghost ids = batch_ids(*request);
    assert(ids.len() == ups + dels);
    if ups > MAX_BATCH_OPERATIONS || dels > MAX_BATCH_OPERATIONS || ups + dels
        > MAX_BATCH_OPERATIONS || ups + dels == 0 {
        return Err(invalid("batch requires 1–1000 operations"));
    }
    let count = ups + dels;
    let mut seen: TextMap<()> = TextMap::new();
    let mut i: usize = 0;
    while i < count
        invariant
            i <= count,
            count == request.upsert@.len() + request.delete@.len(),
            ids == batch_ids(*request),
            ids.len() == count,
            id_verdict(name@) is Ok,
            1 <= count <= MAX_BATCH_OPERATIONS,
            batch_ids_verdict(ids, i as nat) is Ok,
            forall|id: Seq<char>| #[trigger] seen@.contains_key(id) == ids.take(i as int).contains(id),
        decreases count - i,
    {
        let id = batch_id(request, i);
        match validate_id(id.as_str()) {
            Ok(_) => {},
            Err(e) => {
                proof {
                    lemma_first_id_decides(ids, (i + 1) as nat, count as nat);
                }
                return Err(e);
            },
        }
        if seen.contains(id.as_str()) {
            proof {
                lemma_first_id_decides(ids, (i + 1) as nat, count as nat);
            }
            return Err(invalid("a document ID may occur only once per batch"));
        }
        let ghost before = seen@;
        let _ = seen.insert(id.clone(), ());
        proof {
            let front = ids.take(i as int);
            let next = ids.take(i + 1);
            assert(next =~= front.push(ids[i as int]));
            assert forall|x: Seq<char>| #[trigger] seen@.contains_key(x) == next.contains(x) by {
                assert(before.contains_key(x) == front.contains(x));
                if next.contains(x) {
                    let j = choose|j: int| 0 <= j < next.len() && next[j] == x;
                    if j < i {
                        assert(front[j] == x);
                    }
                }
                if front.contains(x) {
                    let j = choose|j: int| 0 <= j < front.len() && front[j] == x;
                    assert(next[j] == x);
                }
                assert(next[i as int] == ids[i as int]);
            }
        }
        i += 1;
    }
    Ok(())
}

// ---------------------------------------------------------------------------
// Writes
// ---------------------------------------------------------------------------
/// The encodings of an upserted document: the size of the whole, and the bytes
/// of the document without its vector.
pub struct DocumentForm {
    pub serialized: usize,
    pub encoded: Vec<u8>,
}

/// What the store holds for an ID: the sizes of its document and vector, and
/// whether it already has a pending change.
#[derive(Clone, Copy, Debug)]
pub struct Prior {
    pub document: Option<usize>,
    pub vector: Option<usize>,
    pub changed: bool,
}

pub open spec fn prior_count(prior: Prior) -> int {
    if prior.document is Some {
        1
    } else {
        0
    }
}

pub open spec fn prior_size(prior: Prior) -> int {
    match prior.document {
        Some(size) => size + match prior.vector {
            Some(v) => v as int,
            None => 0,
        },
        None => 0,
    }
}

pub open spec fn upsert_stored(document: Document, form: DocumentForm) -> Stored {
    Stored {
        document: form.encoded@,
        vector: match document.vector {
            Some(v) => Some(block(v@.len(), vector_rows(v@))),
            None => None,
        },
    }
}

/// The changes that an accepted batch makes, in order.
pub open spec fn batch_changes(request: WriteRequest, forms: Seq<DocumentForm>) -> Seq<Change> {
    let ups = request.upsert@.len();
    Seq::new(
        ups + request.delete@.len(),
        |i: int|
            if i < ups {
                Change {
                    id: request.upsert@[i].id@,
                    new: Some(upsert_stored(request.upsert@[i], forms[i])),
                }
            } else {
                Change { id: request.delete@[i - ups]@, new: None }
            },
    )
}

pub struct Tally {
    pub documents: int,
    pub bytes: int,
    pub pending: int,
}

pub open spec fn new_count(change: Change) -> int {
    if change.new is Some {
        1
    } else {
        0
    }
}

pub open spec fn new_size(change: Change) -> int {
    match change.new {
        Some(stored) => stored_size(stored) as int,
        None => 0,
    }
}

/// The counters after the first `n` changes.
pub open spec fn tally(stats: NamespaceStats, changes: Seq<Change>, priors: Seq<Prior>, n: nat) -> Tally
    decreases n,
{
    if n == 0 {
        Tally {
            documents: stats.documents as int,
            bytes: stats.bytes as int,
            pending: stats.pending_documents as int,
        }
    } else {
        let before = tally(stats, changes, priors, (n - 1) as nat);
        let prior = priors[n - 1];
        let change = changes[n - 1];
        Tally {
            documents: before.documents - prior_count(prior) + new_count(change),
            bytes: before.bytes - prior_size(prior) + new_size(change),
            pending: before.pending + if prior.changed {
                0int
            } else {
                1int
            },
        }
    }
}

pub open spec fn counters_hold_at(
    stats: NamespaceStats,
    changes: Seq<Change>,
    priors: Seq<Prior>,
    n: nat,
) -> bool {
    let before = tally(stats, changes, priors, n);
    let after = tally(stats, changes, priors, n + 1);
    &&& prior_count(priors[n as int]) <= before.documents
    &&& prior_size(priors[n as int]) <= before.bytes
    &&& after.documents <= u64::MAX
    &&& after.bytes <= u64::MAX
    &&& after.pending <= u64::MAX
}

/// The counters cover what is replaced and have room for what is added.
pub open spec fn counters_hold(
    stats: NamespaceStats,
    changes: Seq<Change>,
    priors: Seq<Prior>,
) -> bool {
    forall|n: nat| n < changes.len() ==> #[trigger] counters_hold_at(stats, changes, priors, n)
}

/// The bytes that count against the size of a batch.
pub open spec fn input_bytes(request: WriteRequest, forms: Seq<DocumentForm>, n: nat) -> int
    decreases n,
{
    if n == 0 {
        0
    } else {
        let ups = request.upsert@.len();
        input_bytes(request, forms, (n - 1) as nat) + if n - 1 < ups {
            forms[n - 1].serialized as int
        } else {
            encode_utf8(request.delete@[n - 1 - ups]@).len() as int
        }
    }
}

pub open spec fn upsert_verdict(
    schema: NamespaceConfig,
    document: Document,
    form: DocumentForm,
) -> Verdict {
    if form.serialized > MAX_DOCUMENT_BYTES {
        Err(ErrorView::Invalid("serialized document exceeds 256 KiB"@))
    } else if document.attributes@.dom().len() > MAX_ATTRIBUTES {
        Err(ErrorView::Invalid("at most 64 attributes per document"@))
    } else if document.vector is Some {
        schema.vector_verdict(document.vector->0@)
    } else {
        Ok(())
    }
}

pub open spec fn upserts_verdict(
    schema: NamespaceConfig,
    request: WriteRequest,
    forms: Seq<DocumentForm>,
    n: nat,
) -> Verdict
    decreases n,
{
    if n == 0 {
        Ok(())
    } else if upserts_verdict(schema, request, forms, (n - 1) as nat) is Err {
        upserts_verdict(schema, request, forms, (n - 1) as nat)
    } else {
        upsert_verdict(schema, request.upsert@[n - 1], forms[n - 1])
    }
}

proof fn lemma_first_upsert_decides(
    schema: NamespaceConfig,
    request: WriteRequest,
    forms: Seq<DocumentForm>,
    i: nat,
    n: nat,
)
    requires
        i <= n,
        upserts_verdict(schema, request, forms, i) is Err,
    ensures
        upserts_verdict(schema, request, forms, n) == upserts_verdict(schema, request, forms, i),
    decreases n,
{
    if i < n {
        lemma_first_upsert_decides(schema, request, forms, i, (n - 1) as nat);
    }
}

pub open spec fn within_limits(total: Tally, limits: LimitsConfig) -> bool {
    &&& total.documents <= limits.max_documents
    &&& total.bytes <= limits.max_namespace_bytes
    &&& total.pending <= limits.max_pending_documents
}

/// Whether a valid batch is accepted, and if not, why.
pub open spec fn write_verdict(
    schema: NamespaceConfig,
    stats: NamespaceStats,
    request: WriteRequest,
    forms: Seq<DocumentForm>,
    priors: Seq<Prior>,
    limits: LimitsConfig,
) -> Verdict {
    let changes = batch_changes(request, forms);
    if stats.revision == u64::MAX {
        Err(ErrorView::Limit("revision exhausted"@))
    } else if upserts_verdict(schema, request, forms, request.upsert@.len()) is Err {
        upserts_verdict(schema, request, forms, request.upsert@.len())
    } else if input_bytes(request, forms, changes.len()) > MAX_BODY_BYTES {
        Err(ErrorView::Invalid("batch exceeds 8 MiB"@))
    } else if !within_limits(tally(stats, changes, priors, changes.len()), limits) {
        Err(ErrorView::Limit("namespace document, byte, or pending-index quota exceeded"@))
    } else {
        Ok(())
    }
}

/// The counters that an accepted batch leaves.
pub open spec fn written_stats(
    stats: NamespaceStats,
    changes: Seq<Change>,
    priors: Seq<Prior>,
) -> NamespaceStats {
    let total = tally(stats, changes, priors, changes.len());
    NamespaceStats {
        revision: (stats.revision + 1) as u64,
        documents: total.documents as u64,
        bytes: total.bytes as u64,
        pending_documents: total.pending as u64,
    }
}

/// An accepted batch: the operations on the primary data and the counters that
/// are stored with them.
pub struct WritePlan {
    pub ops: Vec<KeyOp>,
    pub stats: NamespaceStats,
    pub upserted: usize,
    pub deleted: usize,
}

impl WritePlan {
    /// What the writer is told once the batch is durable under `sequence`.
    pub fn acknowledge(&self, sequence: u64) -> (result: WriteResult)
        ensures
            result.upserted == self.upserted,
            result.deleted == self.deleted,
            result.sequence == sequence,
            result.revision == self.stats.revision,
    {
        WriteResult {
            upserted: self.upserted,
            deleted: self.deleted,
            sequence,
            revision: self.stats.revision,
        }
    }
}

/// Adds the encoded counters of the namespace, so that they commit in the same
/// batch as the operations that they describe.
pub fn with_counters(ops: Vec<KeyOp>, name: &str, encoded: Vec<u8>) -> (sealed: Vec<KeyOp>)
    ensures
        ops_view(sealed@) == ops_view(ops@).push(put_op(mark('s', name@), encoded@)),
{
    let mut sealed = ops;
    put(&mut sealed, mark_key('s', name), encoded);
    sealed
}

fn plan_upsert(
    name: &str,
    revision: u64,
    document: &Document,
    form: &DocumentForm,
    ops: &mut Vec<KeyOp>,
) -> (size: u64)
    requires
        stored_size(upsert_stored(*document, *form)) <= u64::MAX,
    ensures
        ops_view(final(ops)@) == ops_view(old(ops)@) + change_ops(
            name@,
            Change { id: document.id@, new: Some(upsert_stored(*document, *form)) },
            revision,
        ),
        size == stored_size(upsert_stored(*document, *form)),
{
    let ghost start = ops_view(ops@);
    let id = document.id.as_str();
    let mut size: u64 = form.encoded.len() as u64;
    match &document.vector {
        Some(vector) => {
            let encoded = encode_vector(vector);
            size = size + encoded.len() as u64;
            put(ops, vector_key(name, id), encoded);
        },
        None => {
            delete(ops, vector_key(name, id));
        },
    }
    put(ops, document_key(name, id), crate::text::copy_range(
        form.encoded.as_slice(),
        0,
        form.encoded.len(),
    ));
    assert(form.encoded@.subrange(0, form.encoded@.len() as int) =~= form.encoded@);
    put(ops, change_key(name, id), stored_revision(revision));
    assert(ops_view(ops@) =~= start + change_ops(
        name@,
        Change { id: document.id@, new: Some(upsert_stored(*document, *form)) },
        revision,
    ));
    size
}

/// A revision as it is stored.
pub fn stored_revision(revision: u64) -> (bytes: Vec<u8>)
    ensures
        bytes@ == revision_bytes(revision),
{
    let mut bytes: Vec<u8> = Vec::new();
    push_le(&mut bytes, revision, 8);
    assert(bytes@ =~= revision_bytes(revision));
    bytes
}

fn plan_delete(name: &str, revision: u64, id: &str, ops: &mut Vec<KeyOp>)
    ensures
        ops_view(final(ops)@) == ops_view(old(ops)@) + change_ops(
            name@,
            Change { id: id@, new: None },
            revision,
        ),
{
    let ghost start = ops_view(ops@);
    delete(ops, document_key(name, id));
    delete(ops, vector_key(name, id));
    put(ops, change_key(name, id), stored_revision(revision));
    assert(ops_view(ops@) =~= start + change_ops(name@, Change { id: id@, new: None }, revision));
}

fn size_of_prior(prior: &Prior) -> (size: u64)
    requires
        prior_size(*prior) <= u64::MAX,
    ensures
        size == prior_size(*prior),
{
    match prior.document {
        Some(document) => match prior.vector {
            Some(vector) => document as u64 + vector as u64,
            None => document as u64,
        },
        None => 0,
    }
}

fn check_upsert(schema: &NamespaceConfig, document: &Document, form: &DocumentForm) -> (result: Result<
    (),
>)
    ensures
        verdict(result) == upsert_verdict(*schema, *document, *form),
{
    if form.serialized > MAX_DOCUMENT_BYTES {
        return Err(invalid("serialized document exceeds 256 KiB"));
    }
    if document.attributes.len() > MAX_ATTRIBUTES {
        return Err(invalid("at most 64 attributes per document"));
    }
    match &document.vector {
        Some(vector) => schema.validate_vector(vector.as_slice()),
        None => Ok(()),
    }
}

/// Decides a valid batch against the stored counters and what the store holds
/// for each of its IDs. An accepted batch replaces or removes exactly its
/// documents, records each as changed at the new revision, and updates the
/// counters; a rejected one changes nothing.
pub fn plan_write(
    name: &str,
    schema: &NamespaceConfig,
    stats: &NamespaceStats,
    request: &WriteRequest,
    forms: &Vec<DocumentForm>,
    priors: &Vec<Prior>,
    limits: &LimitsConfig,
) -> (result: Result<WritePlan>)
    requires
        batch_verdict(name@, *request) is Ok,
        forms@.len() == request.upsert@.len(),
        priors@.len() == request.upsert@.len() + request.delete@.len(),
        counters_hold(*stats, batch_changes(*request, forms@), priors@),
    ensures
        match result {
            Ok(plan) => {
                let changes = batch_changes(*request, forms@);
                &&& write_verdict(*schema, *stats, *request, forms@, priors@, *limits) is Ok
                &&& plan.stats == written_stats(*stats, changes, priors@)
                &&& ops_view(plan.ops@) == changes_ops(
                    name@,
                    changes,
                    plan.stats.revision,
                    changes.len(),
                )
                &&& plan.upserted == request.upsert@.len()
                &&& plan.deleted == request.delete@.len()
            },
            Err(e) => write_verdict(*schema, *stats, *request, forms@, priors@, *limits) == Err::<
                (),
                ErrorView,
            >(e@),
        },
{
    let ghost changes = batch_changes(*request, forms@);
    if stats.revision == u64::MAX {
        return Err(over_limit("revision exhausted"));
    }
    let revision: u64 = stats.revision + 1;
    let mut documents: u64 = stats.documents;
    let mut bytes: u64 = stats.bytes;
    let mut pending: u64 = stats.pending_documents;
    let mut input: usize = 0;
    let mut ops: Vec<KeyOp> = Vec::new();
    let ups = request.upsert.len();
    let dels = request.delete.len();
    assert(ops_view(ops@) =~= Seq::<Op>::empty());
    assert(batch_ids(*request).len() == ups + dels);
    let mut i: usize = 0;
    while i < ups
        invariant
            i <= ups,
            ups == request.upsert@.len() <= MAX_BATCH_OPERATIONS,
            dels == request.delete@.len(),
            changes == batch_changes(*request, forms@),
            forms@.len() == ups,
            priors@.len() == ups + dels,
            counters_hold(*stats, changes, priors@),
            stats.revision < u64::MAX,
            revision == stats.revision + 1,
            upserts_verdict(*schema, *request, forms@, i as nat) is Ok,
            input == input_bytes(*request, forms@, i as nat),
            input <= i * MAX_DOCUMENT_BYTES,
            documents == tally(*stats, changes, priors@, i as nat).documents,
            bytes == tally(*stats, changes, priors@, i as nat).bytes,
            pending == tally(*stats, changes, priors@, i as nat).pending,
            ops_view(ops@) == changes_ops(name@, changes, revision, i as nat),
        decreases ups - i,
    {
        let document = &request.upsert[i];
        match check_upsert(schema, document, &forms[i]) {
            Ok(_) => {},
            Err(e) => {
                proof {
                    lemma_first_upsert_decides(
                        *schema,
                        *request,
                        forms@,
                        (i + 1) as nat,
                        ups as nat,
                    );
                }
                return Err(e);
            },
        }
        assert(counters_hold_at(*stats, changes, priors@, i as nat));
        assert(changes[i as int] == Change {
            id: document.id@,
            new: Some(upsert_stored(*document, forms@[i as int])),
        });
        let removed = size_of_prior(&priors[i]);
        let size = plan_upsert(name, revision, document, &forms[i], &mut ops);
        if priors[i].document.is_some() {
            documents = documents - 1;
        }
        documents = documents + 1;
        bytes = bytes - removed + size;
        if !priors[i].changed {
            pending = pending + 1;
        }
        input = input + forms[i].serialized;
        i += 1;
    }
    let mut k: usize = 0;
    while k < dels
        invariant
            k <= dels,
            ups == request.upsert@.len(),
            dels == request.delete@.len() <= MAX_BATCH_OPERATIONS,
            ups <= MAX_BATCH_OPERATIONS,
            changes == batch_changes(*request, forms@),
            forms@.len() == ups,
            priors@.len() == ups + dels,
            counters_hold(*stats, changes, priors@),
            stats.revision < u64::MAX,
            revision == stats.revision + 1,
            batch_ids_verdict(batch_ids(*request), batch_ids(*request).len()) is Ok,
            input == input_bytes(*request, forms@, (ups + k) as nat),
            input <= ups * MAX_DOCUMENT_BYTES + k * 128,
            documents == tally(*stats, changes, priors@, (ups + k) as nat).documents,
            bytes == tally(*stats, changes, priors@, (ups + k) as nat).bytes,
            pending == tally(*stats, changes, priors@, (ups + k) as nat).pending,
            ops_view(ops@) == changes_ops(name@, changes, revision, (ups + k) as nat),
        decreases dels - k,
    {
        let id = request.delete[k].as_str();
        let at = ups + k;
        assert(counters_hold_at(*stats, changes, priors@, at as nat));
        assert(changes[at as int] == Change { id: id@, new: None });
        let removed = size_of_prior(&priors[at]);
        plan_delete(name, revision, id, &mut ops);
        if priors[at].document.is_some() {
            documents = documents - 1;
        }
        bytes = bytes - removed;
        if !priors[at].changed {
            pending = pending + 1;
        }
        proof {
            let ids = batch_ids(*request);
            lemma_accepted_ids(ids, ids.len());
            assert(ids[at as int] == id@);
            assert(valid_id(ids[at as int]));
            lemma_id_size(id@);
        }
        input = input + id.as_bytes().len();
        k += 1;
    }
    assert(changes.len() == ups + dels);
    if input > MAX_BODY_BYTES {
        return Err(invalid("batch exceeds 8 MiB"));
    }
    if documents > limits.max_documents || bytes > limits.max_namespace_bytes || pending
        > limits.max_pending_documents {
        return Err(over_limit("namespace document, byte, or pending-index quota exceeded"));
    }
    Ok(
        WritePlan {
            ops,
            stats: NamespaceStats { revision, documents, bytes, pending_documents: pending },
            upserted: ups,
            deleted: dels,
        },
    )
}

/// Whether the counters cover what the batch replaces and have room for what
/// it adds.
pub fn check_counters(
    stats: &NamespaceStats,
    request: &WriteRequest,
    forms: &Vec<DocumentForm>,
    priors: &Vec<Prior>,
) -> (held: bool)
    requires
        forms@.len() == request.upsert@.len(),
        priors@.len() == request.upsert@.len() + request.delete@.len(),
    ensures
        held == counters_hold(*stats, batch_changes(*request, forms@), priors@),
{
    let ghost changes = batch_changes(*request, forms@);
    let ups = request.upsert.len();
    let mut documents: u64 = stats.documents;
    let mut bytes: u64 = stats.bytes;
    let mut pending: u64 = stats.pending_documents;
    let mut i: usize = 0;
    while i < priors.len()
        invariant
            i <= priors@.len(),
            ups == request.upsert@.len() == forms@.len(),
            priors@.len() == ups + request.delete@.len(),
            changes == batch_changes(*request, forms@),
            documents == tally(*stats, changes, priors@, i as nat).documents,
            bytes == tally(*stats, changes, priors@, i as nat).bytes,
            pending == tally(*stats, changes, priors@, i as nat).pending,
            forall|n: nat| n < i ==> #[trigger] counters_hold_at(*stats, changes, priors@, n),
        decreases priors@.len() - i,
    {
        let prior = &priors[i];
        let removed: u128 = match prior.document {
            Some(document) => match prior.vector {
                Some(vector) => document as u128 + vector as u128,
                None => document as u128,
            },
            None => 0,
        };
        let added: u128 = if i < ups {
            let size = form_size(&request.upsert[i], &forms[i]);
            size
        } else {
            0
        };
        assert(added == new_size(changes[i as int]));
        let old: u64 = if prior.document.is_some() {
            1
        } else {
            0
        };
        let new: u64 = if i < ups {
            1
        } else {
            0
        };
        let more: u64 = if prior.changed {
            0
        } else {
            1
        };
        let after = tally_bytes(bytes, removed, added);
        if old > documents || (documents - old) as u128 + new as u128 > 18446744073709551615u128
            || after.is_none() || pending as u128 + more as u128 > 18446744073709551615u128 {
            assert(!counters_hold_at(*stats, changes, priors@, i as nat));
            return false;
        }
        documents = documents - old + new;
        bytes = after.unwrap();
        pending = pending + more;
        assert(counters_hold_at(*stats, changes, priors@, i as nat));
        i += 1;
    }
    true
}

fn tally_bytes(bytes: u64, removed: u128, added: u128) -> (after: Option<u64>)
    requires
        added <= 2 * u64::MAX,
    ensures
        match after {
            Some(n) => removed <= bytes && n == bytes - removed + added,
            None => removed > bytes || bytes - removed + added > u64::MAX,
        },
{
    if removed > bytes as u128 {
        return None;
    }
    let total: u128 = bytes as u128 - removed + added;
    if total > 18446744073709551615u128 {
        None
    } else {
        Some(total as u64)
    }
}

fn form_size(document: &Document, form: &DocumentForm) -> (size: u128)
    ensures
        size == stored_size(upsert_stored(*document, *form)),
        size <= 2 * u64::MAX,
{
    match &document.vector {
        Some(vector) => {
            let encoded = encode_vector(vector);
            form.encoded.len() as u128 + encoded.len() as u128
        },
        None => form.encoded.len() as u128,
    }
}

// ---------------------------------------------------------------------------
// What accepted batches guarantee
// ---------------------------------------------------------------------------
/// What was read for an ID agrees with the state.
pub open spec fn prior_matches(prior: Prior, state: NamespaceState, id: Seq<char>) -> bool {
    &&& prior.document is Some == state.documents.contains_key(id)
    &&& prior.document is Some ==> {
        let stored = state.documents[id];
        &&& prior.document->0 == stored.document.len()
        &&& prior.vector is Some == stored.vector is Some
        &&& prior.vector is Some ==> prior.vector->0 == stored.vector->0.len()
    }
    &&& prior.changed == state.changes.contains_key(id)
}

pub open spec fn priors_match(
    priors: Seq<Prior>,
    state: NamespaceState,
    changes: Seq<Change>,
) -> bool {
    &&& priors.len() == changes.len()
    &&& forall|i: int|
        0 <= i < priors.len() ==> prior_matches(#[trigger] priors[i], state, changes[i].id)
}

pub open spec fn distinct_ids(changes: Seq<Change>) -> bool {
    forall|i: int, j: int| 0 <= i < j < changes.len() ==> changes[i].id != changes[j].id
}

/// The IDs of an accepted batch are those of its changes, each named once.
pub proof fn lemma_batch_distinct(name: Seq<char>, request: WriteRequest, forms: Seq<DocumentForm>)
    requires
        batch_verdict(name, request) is Ok,
    ensures
        distinct_ids(batch_changes(request, forms)),
        batch_changes(request, forms).len() == batch_ids(request).len(),
        forall|i: int|
            0 <= i < batch_ids(request).len() ==> (#[trigger] batch_changes(request, forms)[i]).id
                == batch_ids(request)[i],
{
    let ids = batch_ids(request);
    let changes = batch_changes(request, forms);
    lemma_accepted_ids(ids, ids.len());
    assert forall|i: int| 0 <= i < ids.len() implies (#[trigger] changes[i]).id == ids[i] by {}
}

/// An ID that the first `n` changes do not name is as it was.
pub proof fn lemma_steps_untouched(
    state: NamespaceState,
    changes: Seq<Change>,
    revision: u64,
    n: nat,
    id: Seq<char>,
)
    requires
        n <= changes.len(),
        forall|i: int| 0 <= i < n ==> (#[trigger] changes[i]).id != id,
    ensures
        steps(state, changes, revision, n).documents.contains_key(id)
            == state.documents.contains_key(id),
        state.documents.contains_key(id) ==> steps(state, changes, revision, n).documents[id]
            == state.documents[id],
        steps(state, changes, revision, n).changes.contains_key(id) == state.changes.contains_key(
            id,
        ),
        state.changes.contains_key(id) ==> steps(state, changes, revision, n).changes[id]
            == state.changes[id],
    decreases n,
{
    if n > 0 {
        lemma_steps_untouched(state, changes, revision, (n - 1) as nat, id);
        assert(changes[n - 1].id != id);
    }
}

/// The running counters describe the running state.
pub proof fn lemma_tally_describes(
    state: NamespaceState,
    stats: NamespaceStats,
    changes: Seq<Change>,
    priors: Seq<Prior>,
    revision: u64,
    n: nat,
)
    requires
        stats_match(stats, state),
        priors_match(priors, state, changes),
        distinct_ids(changes),
        n <= changes.len(),
    ensures
        ({
            let after = steps(state, changes, revision, n);
            let total = tally(stats, changes, priors, n);
            &&& after.documents.dom().finite()
            &&& after.changes.dom().finite()
            &&& total.documents == after.documents.dom().len()
            &&& total.bytes == total_bytes(after.documents)
            &&& total.pending == after.changes.dom().len()
        }),
        n < changes.len() ==> prior_count(priors[n as int]) <= tally(
            stats,
            changes,
            priors,
            n,
        ).documents && prior_size(priors[n as int]) <= tally(stats, changes, priors, n).bytes,
    decreases n,
{
    if n > 0 {
        let m = (n - 1) as nat;
        lemma_tally_describes(state, stats, changes, priors, revision, m);
        let before = steps(state, changes, revision, m);
        let change = changes[n - 1];
        let after = steps(state, changes, revision, n);
        lemma_steps_untouched(state, changes, revision, m, change.id);
        assert(prior_matches(priors[n - 1], state, change.id));
        if before.documents.contains_key(change.id) {
            lemma_total_remove(before.documents, change.id);
        } else {
            assert(before.documents.remove(change.id) =~= before.documents);
        }
        match change.new {
            Some(stored) => {
                lemma_total_insert(before.documents, change.id, stored);
                assert(after.documents.dom() =~= before.documents.dom().insert(change.id));
            },
            None => {
                assert(after.documents.dom() =~= before.documents.dom().remove(change.id));
            },
        }
        assert(after.changes.dom() =~= before.changes.dom().insert(change.id));
    }
    if n < changes.len() {
        let now = steps(state, changes, revision, n);
        let id = changes[n as int].id;
        assert forall|i: int| 0 <= i < n implies (#[trigger] changes[i]).id != id by {}
        lemma_steps_untouched(state, changes, revision, n, id);
        assert(prior_matches(priors[n as int], state, id));
        if now.documents.contains_key(id) {
            lemma_total_remove(now.documents, id);
            assert(now.documents.dom().contains(id));
            assert(now.documents.dom().len() > 0) by {
                assert(now.documents.dom().remove(id).len() < now.documents.dom().len());
            }
        }
    }
}

/// In a consistent store no counter of a batch ever drops below zero: each
/// replaced or removed document has been counted.
pub proof fn law_counters_never_underflow(
    state: NamespaceState,
    stats: NamespaceStats,
    changes: Seq<Change>,
    priors: Seq<Prior>,
    n: nat,
)
    requires
        stats_match(stats, state),
        priors_match(priors, state, changes),
        distinct_ids(changes),
        n < changes.len(),
    ensures
        prior_count(priors[n as int]) <= tally(stats, changes, priors, n).documents,
        prior_size(priors[n as int]) <= tally(stats, changes, priors, n).bytes,
        tally(stats, changes, priors, n).pending >= 0,
{
    lemma_tally_describes(state, stats, changes, priors, stats.revision, n);
}

/// The operations that an accepted batch commits: its changes and, last, the
/// stored counters.
pub open spec fn committed_ops(
    name: Seq<char>,
    changes: Seq<Change>,
    revision: u64,
    stats_bytes: Seq<u8>,
) -> Seq<Op> {
    changes_ops(name, changes, revision, changes.len()).push(put_op(mark('s', name), stats_bytes))
}

/// Accepted batches keep the counters exact: whatever the counters described
/// before a batch, they describe after it, and the keys of the store represent
/// the state that the batch leaves.
pub proof fn law_write_keeps_counters(
    db: Kv,
    name: Seq<char>,
    state: NamespaceState,
    stats: NamespaceStats,
    request: WriteRequest,
    forms: Seq<DocumentForm>,
    priors: Seq<Prior>,
    stats_bytes: Seq<u8>,
)
    requires
        batch_verdict(name, request) is Ok,
        forms.len() == request.upsert@.len(),
        stats.revision < u64::MAX,
        represents(db, name, state),
        stats_match(stats, state),
        priors_match(priors, state, batch_changes(request, forms)),
        counters_hold(stats, batch_changes(request, forms), priors),
    ensures
        ({
            let changes = batch_changes(request, forms);
            let after = written_stats(stats, changes, priors);
            let state2 = steps(state, changes, after.revision, changes.len());
            &&& stats_match(after, state2)
            &&& represents(
                apply(db, committed_ops(name, changes, after.revision, stats_bytes)),
                name,
                state2,
            )
        }),
{
    let changes = batch_changes(request, forms);
    let after = written_stats(stats, changes, priors);
    let n = changes.len();
    let state2 = steps(state, changes, after.revision, n);
    lemma_batch_distinct(name, request, forms);
    lemma_tally_describes(state, stats, changes, priors, after.revision, n);
    if n > 0 {
        assert(counters_hold_at(stats, changes, priors, (n - 1) as nat));
    }
    lemma_steps_revisions(state, changes, stats.revision, after.revision, n);
    lemma_changes_represented(db, name, state, changes, after.revision, n);
    let ops = changes_ops(name, changes, after.revision, n);
    let all = committed_ops(name, changes, after.revision, stats_bytes);
    assert(all.drop_last() =~= ops);
    lemma_mark_keeps_state(apply(db, ops), 's', name, Some(stats_bytes), name, state2);
}

proof fn lemma_steps_revisions(
    state: NamespaceState,
    changes: Seq<Change>,
    low: u64,
    revision: u64,
    n: nat,
)
    requires
        n <= changes.len(),
        low <= revision,
        forall|id: Seq<char>| #[trigger]
            state.changes.contains_key(id) ==> state.changes[id] <= low,
    ensures
        forall|id: Seq<char>| #[trigger]
            steps(state, changes, revision, n).changes.contains_key(id) ==> steps(
                state,
                changes,
                revision,
                n,
            ).changes[id] <= revision,
    decreases n,
{
    if n > 0 {
        let m = (n - 1) as nat;
        lemma_steps_revisions(state, changes, low, revision, m);
        let before = steps(state, changes, revision, m);
        let after = steps(state, changes, revision, n);
        assert forall|id: Seq<char>| #[trigger] after.changes.contains_key(id) implies after.changes[id]
            <= revision by {
            if id != changes[n - 1].id {
                assert(before.changes.contains_key(id));
            }
        }
    }
}

/// A batch touches the keys of its own namespace only: every other namespace
/// keeps its documents, vectors and pending changes.
pub proof fn law_write_isolated(
    db: Kv,
    name: Seq<char>,
    other: Seq<char>,
    state: NamespaceState,
    changes: Seq<Change>,
    revision: u64,
    stats_bytes: Seq<u8>,
)
    requires
        valid_id(name),
        valid_id(other),
        name != other,
        represents(db, other, state),
    ensures
        represents(
            apply(db, committed_ops(name, changes, revision, stats_bytes)),
            other,
            state,
        ),
{
    let n = changes.len();
    let ops = committed_ops(name, changes, revision, stats_bytes);
    assert forall|i: int| 0 <= i < ops.len() implies belongs((#[trigger] ops[i]).key, name) by {
        let front = changes_ops(name, changes, revision, n);
        if i < front.len() {
            lemma_changes_belong(name, changes, revision, n, i);
        } else {
            assert(belongs_by(mark('s', name), 's', name));
        }
    }
    lemma_other_namespace_kept(db, ops, name, other, state);
}

/// A request after an accepted batch sees it: each upserted document reads back
/// as it was encoded, its vector decodes to the vector that was sent, deleted
/// documents are gone, and every ID of the batch is pending at its revision.
pub proof fn law_write_visible(
    state: NamespaceState,
    name: Seq<char>,
    schema: NamespaceConfig,
    request: WriteRequest,
    forms: Seq<DocumentForm>,
    revision: u64,
    i: int,
)
    requires
        batch_verdict(name, request) is Ok,
        forms.len() == request.upsert@.len(),
        schema.config_verdict() is Ok,
        upserts_verdict(schema, request, forms, request.upsert@.len()) is Ok,
        0 <= i < batch_ids(request).len(),
    ensures
        ({
            let changes = batch_changes(request, forms);
            let after = steps(state, changes, revision, changes.len());
            let id = batch_ids(request)[i];
            &&& after.changes.contains_key(id) && after.changes[id] == revision
            &&& i >= request.upsert@.len() ==> !after.documents.contains_key(id)
            &&& i < request.upsert@.len() ==> {
                let document = request.upsert@[i];
                &&& after.documents.contains_key(id)
                &&& after.documents[id].document == forms[i].encoded@
                &&& document.vector is None == after.documents[id].vector is None
                &&& document.vector is Some ==> decoded(after.documents[id].vector->0) == Some(
                    vector_rows(document.vector->0@),
                )
            }
        }),
{
    let changes = batch_changes(request, forms);
    let n = changes.len();
    let id = batch_ids(request)[i];
    lemma_batch_distinct(name, request, forms);
    assert(changes[i].id == id);
    lemma_steps_last(state, changes, revision, i, n);
    if i < request.upsert@.len() && request.upsert@[i].vector is Some {
        lemma_upsert_accepted(schema, request, forms, i, request.upsert@.len());
        law_vector_round_trip(request.upsert@[i].vector->0@);
    }
}

proof fn lemma_upsert_accepted(
    schema: NamespaceConfig,
    request: WriteRequest,
    forms: Seq<DocumentForm>,
    i: int,
    n: nat,
)
    requires
        0 <= i < n,
        upserts_verdict(schema, request, forms, n) is Ok,
    ensures
        upsert_verdict(schema, request.upsert@[i], forms[i]) is Ok,
    decreases n,
{
    if i < n - 1 {
        lemma_upsert_accepted(schema, request, forms, i, (n - 1) as nat);
    }
}

proof fn lemma_steps_last(
    state: NamespaceState,
    changes: Seq<Change>,
    revision: u64,
    i: int,
    n: nat,
)
    requires
        0 <= i < n <= changes.len(),
        distinct_ids(changes),
    ensures
        ({
            let after = steps(state, changes, revision, n);
            let change = changes[i];
            &&& after.changes.contains_key(change.id) && after.changes[change.id] == revision
            &&& after.documents.contains_key(change.id) == change.new is Some
            &&& change.new is Some ==> after.documents[change.id] == change.new->0
        }),
    decreases n,
{
    if i < n - 1 {
        lemma_steps_last(state, changes, revision, i, (n - 1) as nat);
        assert(changes[i].id != changes[n - 1].id);
    }
}

// ---------------------------------------------------------------------------
// What is accepted
// ---------------------------------------------------------------------------
/// A batch is accepted in a namespace with a valid name if it has 1 to 1000
/// operations, all with valid IDs, no ID twice: neither among the upserts, nor
/// among the deletes, nor in both.
pub proof fn law_batches_accepted(name: Seq<char>, request: WriteRequest)
    ensures
        batch_verdict(name, request) is Ok <==> {
            let ups = request.upsert@;
            let dels = request.delete@;
            &&& valid_id(name)
            &&& 1 <= ups.len() + dels.len() && ups.len() + dels.len() <= 1000
            &&& forall|i: int| 0 <= i < ups.len() ==> valid_id((#[trigger] ups[i]).id@)
            &&& forall|i: int| 0 <= i < dels.len() ==> valid_id((#[trigger] dels[i])@)
            &&& forall|i: int, j: int|
                0 <= i < j < ups.len() ==> (#[trigger] ups[i]).id@ != (#[trigger] ups[j]).id@
            &&& forall|i: int, j: int|
                0 <= i < j < dels.len() ==> (#[trigger] dels[i])@ != (#[trigger] dels[j])@
            &&& forall|i: int, j: int|
                0 <= i < ups.len() && 0 <= j < dels.len() ==> (#[trigger] ups[i]).id@ != (
                #[trigger] dels[j])@
        },
{
    let ids = batch_ids(request);
    let ups = request.upsert@;
    let dels = request.delete@;
    let n = ups.len();
    lemma_ids_accepted(ids, ids.len());
    assert forall|i: int| 0 <= i < n implies ids[i] == (#[trigger] ups[i]).id@ by {}
    assert forall|i: int| 0 <= i < dels.len() implies ids[n + i] == (#[trigger] dels[i])@ by {}
    if batch_verdict(name, request) is Ok {
        assert forall|i: int| 0 <= i < n implies valid_id((#[trigger] ups[i]).id@) by {
            assert(valid_id(ids[i]));
        }
        assert forall|i: int| 0 <= i < dels.len() implies valid_id((#[trigger] dels[i])@) by {
            assert(valid_id(ids[n + i]));
        }
        assert forall|i: int, j: int| 0 <= i < j < n implies (#[trigger] ups[i]).id@ != (
        #[trigger] ups[j]).id@ by {
            assert(ids[i] != ids[j]);
        }
        assert forall|i: int, j: int| 0 <= i < j < dels.len() implies (#[trigger] dels[i])@ != (
        #[trigger] dels[j])@ by {
            assert(ids[n + i] != ids[n + j]);
        }
        assert forall|i: int, j: int| 0 <= i < n && 0 <= j < dels.len() implies (
        #[trigger] ups[i]).id@ != (#[trigger] dels[j])@ by {
            assert(ids[i] != ids[n + j]);
        }
    } else if valid_id(name) && 1 <= ids.len() <= 1000 {
        if exists|i: int| 0 <= i < ids.len() && !valid_id(#[trigger] ids[i]) {
            let i = choose|i: int| 0 <= i < ids.len() && !valid_id(#[trigger] ids[i]);
            if i < n {
                assert(!valid_id(ups[i].id@));
            } else {
                assert(!valid_id(dels[i - n]@));
            }
        } else {
            let (i, j) = choose|i: int, j: int|
                0 <= i < j < ids.len() && #[trigger] ids[i] == #[trigger] ids[j];
            if j < n {
                assert(ups[i].id@ == ups[j].id@);
            } else if i < n {
                assert(ups[i].id@ == dels[j - n]@);
            } else {
                assert(dels[i - n]@ == dels[j - n]@);
            }
        }
    }
}

proof fn lemma_ids_accepted(ids: Seq<Seq<char>>, n: nat)
    requires
        n <= ids.len(),
    ensures
        batch_ids_verdict(ids, n) is Ok <==> (forall|i: int|
            0 <= i < n ==> valid_id(#[trigger] ids[i])) && (forall|i: int, j: int|
            0 <= i < j < n ==> #[trigger] ids[i] != #[trigger] ids[j]),
    decreases n,
{
    if n > 0 {
        let m = (n - 1) as nat;
        lemma_ids_accepted(ids, m);
        let front = ids.take(m as int);
        if front.contains(ids[n - 1]) {
            let i = choose|i: int| 0 <= i < front.len() && front[i] == ids[n - 1];
            assert(ids[i] == ids[n - 1]);
        } else {
            assert forall|i: int| 0 <= i < m implies #[trigger] ids[i] != ids[n - 1] by {
                assert(front[i] == ids[i]);
                assert(front.contains(front[i]));
            }
        }
    }
}

/// A document is accepted with at most 256 KiB of JSON, at most 64 attributes and,
/// if it has a vector, one that its schema accepts.
pub proof fn law_documents_accepted(schema: NamespaceConfig, document: Document, form: DocumentForm)
    ensures
        upsert_verdict(schema, document, form) is Ok <==> {
            &&& form.serialized <= 262144
            &&& document.attributes@.dom().len() <= 64
            &&& document.vector is Some ==> schema.accepts_vector(document.vector->0@)
        },
{
}

proof fn lemma_upserts_accepted(
    schema: NamespaceConfig,
    request: WriteRequest,
    forms: Seq<DocumentForm>,
    n: nat,
)
    ensures
        upserts_verdict(schema, request, forms, n) is Ok <==> forall|i: int|
            0 <= i < n ==> upsert_verdict(schema, #[trigger] request.upsert@[i], forms[i]) is Ok,
    decreases n,
{
    if n > 0 {
        lemma_upserts_accepted(schema, request, forms, (n - 1) as nat);
        if upserts_verdict(schema, request, forms, n) is Ok {
            assert forall|i: int| 0 <= i < n implies upsert_verdict(
                schema,
                #[trigger] request.upsert@[i],
                forms[i],
            ) is Ok by {}
        } else if upserts_verdict(schema, request, forms, (n - 1) as nat) is Ok {
            assert(upsert_verdict(schema, request.upsert@[n - 1], forms[n - 1]) is Err);
        }
    }
}

/// The size of a batch is that of the JSON of its documents and of the IDs that
/// it deletes.
pub proof fn law_batch_size_adds_up(request: WriteRequest, forms: Seq<DocumentForm>, n: nat)
    ensures
        input_bytes(request, forms, 0) == 0,
        n < request.upsert@.len() ==> input_bytes(request, forms, n + 1) == input_bytes(
            request,
            forms,
            n,
        ) + forms[n as int].serialized,
        n >= request.upsert@.len() ==> input_bytes(request, forms, n + 1) == input_bytes(
            request,
            forms,
            n,
        ) + encode_utf8(request.delete@[n - request.upsert@.len()]@).len(),
{
}

/// In a namespace whose counters are right, a batch of acceptable documents is
/// accepted unless it exceeds 8 MiB, or would leave more documents, more bytes
/// or more pending IDs than the namespace may have. A refused batch says which
/// of these it was.
pub proof fn law_writes_accepted(
    schema: NamespaceConfig,
    state: NamespaceState,
    stats: NamespaceStats,
    request: WriteRequest,
    forms: Seq<DocumentForm>,
    priors: Seq<Prior>,
    limits: LimitsConfig,
    revision: u64,
)
    requires
        forms.len() == request.upsert@.len(),
        stats_match(stats, state),
        priors_match(priors, state, batch_changes(request, forms)),
        distinct_ids(batch_changes(request, forms)),
    ensures
        ({
            let changes = batch_changes(request, forms);
            let after = steps(state, changes, revision, changes.len());
            let verdict = write_verdict(schema, stats, request, forms, priors, limits);
            let valid = forall|i: int|
                0 <= i < request.upsert@.len() ==> upsert_verdict(
                    schema,
                    #[trigger] request.upsert@[i],
                    forms[i],
                ) is Ok;
            let small = input_bytes(
                request,
                forms,
                request.upsert@.len() + request.delete@.len(),
            ) <= 8388608;
            let room = after.documents.dom().len() <= limits.max_documents && total_bytes(
                after.documents,
            ) <= limits.max_namespace_bytes && after.changes.dom().len()
                <= limits.max_pending_documents;
            &&& verdict is Ok <==> stats.revision < u64::MAX && valid && small && room
            &&& stats.revision < u64::MAX && valid && small && !room ==> verdict == Err::<
                (),
                ErrorView,
            >(ErrorView::Limit("namespace document, byte, or pending-index quota exceeded"@))
            &&& stats.revision < u64::MAX && valid && !small ==> verdict == Err::<(), ErrorView>(
                ErrorView::Invalid("batch exceeds 8 MiB"@),
            )
            &&& stats.revision < u64::MAX ==> written_stats(stats, changes, priors).revision
                == stats.revision + 1
        }),
{
    let changes = batch_changes(request, forms);
    lemma_tally_describes(state, stats, changes, priors, revision, changes.len());
    lemma_upserts_accepted(schema, request, forms, request.upsert@.len());
}

proof fn lemma_changes_keys(
    name: Seq<char>,
    changes: Seq<Change>,
    revision: u64,
    n: nat,
    k: int,
) -> (j: int)
    requires
        n <= changes.len(),
        0 <= k < changes_ops(name, changes, revision, n).len(),
    ensures
        0 <= j < n,
        ({
            let key = changes_ops(name, changes, revision, n)[k].key;
            key == member('d', name, changes[j].id) || key == member('v', name, changes[j].id)
                || key == member('c', name, changes[j].id)
        }),
    decreases n,
{
    let m = (n - 1) as nat;
    let front = changes_ops(name, changes, revision, m);
    let own = change_ops(name, changes[n - 1], revision);
    if k < front.len() {
        assert(changes_ops(name, changes, revision, n)[k] == front[k]);
        lemma_changes_keys(name, changes, revision, m, k)
    } else {
        assert(changes_ops(name, changes, revision, n)[k] == own[k - front.len()]);
        n - 1
    }
}

/// An accepted batch leaves under the keys of its namespace: each upserted
/// document as it was encoded, its vector in a block that decodes to it, or no
/// vector; no document and no vector for a deleted ID; and for both the revision
/// of the batch. Every other key but that of the counters stays as it was.
pub proof fn law_write_stores(
    db: Kv,
    name: Seq<char>,
    state: NamespaceState,
    schema: NamespaceConfig,
    request: WriteRequest,
    forms: Seq<DocumentForm>,
    revision: u64,
    stats_bytes: Seq<u8>,
    i: int,
)
    requires
        batch_verdict(name, request) is Ok,
        forms.len() == request.upsert@.len(),
        schema.config_verdict() is Ok,
        upserts_verdict(schema, request, forms, request.upsert@.len()) is Ok,
        represents(db, name, state),
    ensures
        ({
            let after = apply(
                db,
                committed_ops(name, batch_changes(request, forms), revision, stats_bytes),
            );
            let key = |kind: char, id: Seq<char>| seq![kind, '/'] + name + seq!['/'] + id;
            &&& after.contains_key(seq!['s', '/'] + name)
            &&& after[seq!['s', '/'] + name] == stats_bytes
            &&& 0 <= i < request.upsert@.len() ==> {
                let document = request.upsert@[i];
                let id = document.id@;
                &&& after.contains_key(key('d', id)) && after[key('d', id)] == forms[i].encoded@
                &&& after.contains_key(key('v', id)) == (document.vector is Some)
                &&& document.vector is Some ==> decoded(after[key('v', id)]) == Some(
                    seq![Row { id: "v"@, vector: document.vector->0@ }],
                )
                &&& after.contains_key(key('c', id)) && from_le(after[key('c', id)]) == revision
            }
            &&& 0 <= i < request.delete@.len() ==> {
                let id = request.delete@[i]@;
                &&& !after.contains_key(key('d', id)) && !after.contains_key(key('v', id))
                &&& after.contains_key(key('c', id)) && from_le(after[key('c', id)]) == revision
            }
            &&& forall|other: Seq<char>|
                other != seq!['s', '/'] + name && (forall|j: int|
                    #![trigger batch_ids(request)[j]]
                    0 <= j < batch_ids(request).len() ==> other != key('d', batch_ids(request)[j])
                        && other != key('v', batch_ids(request)[j]) && other != key(
                        'c',
                        batch_ids(request)[j],
                    )) ==> (#[trigger] after.contains_key(other)) == db.contains_key(other) && (
                db.contains_key(other) ==> after[other] == db[other])
        }),
{
    let changes = batch_changes(request, forms);
    let n = changes.len();
    let ops = changes_ops(name, changes, revision, n);
    let all = committed_ops(name, changes, revision, stats_bytes);
    let after = apply(db, all);
    let state2 = steps(state, changes, revision, n);
    let ups = request.upsert@.len();
    lemma_changes_represented(db, name, state, changes, revision, n);
    assert(all.drop_last() =~= ops);
    lemma_mark_keeps_state(apply(db, ops), 's', name, Some(stats_bytes), name, state2);
    assert(represents(after, name, state2));
    lemma_batch_distinct(name, request, forms);
    let ids = batch_ids(request);
    assert forall|other: Seq<char>|
        other != mark('s', name) && (forall|j: int|
            #![trigger ids[j]]
            0 <= j < ids.len() ==> other != member('d', name, ids[j]) && other != member(
                'v',
                name,
                ids[j],
            ) && other != member('c', name, ids[j])) implies (
    #[trigger] after.contains_key(other)) == db.contains_key(other) && (db.contains_key(other)
        ==> after[other] == db[other]) by {
        assert forall|k: int| 0 <= k < all.len() implies (#[trigger] all[k]).key != other by {
            if k < ops.len() {
                let j = lemma_changes_keys(name, changes, revision, n, k);
                assert(changes[j].id == ids[j]);
                assert(all[k] == ops[k]);
            }
        }
        lemma_apply_untouched(db, all, other);
    }
    lemma_fits_64(revision as nat);
    lemma_le_from(revision as nat, 8);
    if 0 <= i < ups {
        law_write_visible(state, name, schema, request, forms, revision, i);
        assert(batch_ids(request)[i] == request.upsert@[i].id@);
        assert(id_represented(after, name, state2, request.upsert@[i].id@));
    }
    if 0 <= i < request.delete@.len() {
        law_write_visible(state, name, schema, request, forms, revision, ups + i);
        assert(batch_ids(request)[ups + i] == request.delete@[i]@);
        assert(id_represented(after, name, state2, request.delete@[i]@));
    }
}

/// In a namespace whose counters are right, a batch never runs them into trouble
/// unless they outgrow 64 bits.
pub proof fn law_right_counters_hold(
    state: NamespaceState,
    stats: NamespaceStats,
    changes: Seq<Change>,
    priors: Seq<Prior>,
    revision: u64,
)
    requires
        stats_match(stats, state),
        priors_match(priors, state, changes),
        distinct_ids(changes),
        forall|n: nat|
            n <= changes.len() ==> {
                let after = #[trigger] steps(state, changes, revision, n);
                &&& after.documents.dom().len() <= u64::MAX
                &&& total_bytes(after.documents) <= u64::MAX
                &&& after.changes.dom().len() <= u64::MAX
            },
    ensures
        counters_hold(stats, changes, priors),
{
    assert forall|n: nat| n < changes.len() implies #[trigger] counters_hold_at(
        stats,
        changes,
        priors,
        n,
    ) by {
        lemma_tally_describes(state, stats, changes, priors, revision, n);
        lemma_tally_describes(state, stats, changes, priors, revision, n + 1);
        let after = steps(state, changes, revision, n + 1);
        assert(after.documents.dom().len() <= u64::MAX);
    }
}

/// A refused batch is told what is wrong with it: its namespace, its size, or the
/// first ID that is not valid or not new; a refused document, that it is too
/// large, has too many attributes, or what is wrong with its vector.
pub proof fn law_refused_batches_say_why(
    name: Seq<char>,
    request: WriteRequest,
    schema: NamespaceConfig,
    document: Document,
    form: DocumentForm,
    i: nat,
)
    requires
        i < batch_ids(request).len(),
    ensures
        !valid_id(name) ==> batch_verdict(name, request) == id_verdict(name),
        valid_id(name) && (request.upsert@.len() + request.delete@.len() == 0
            || request.upsert@.len() + request.delete@.len() > 1000) ==> batch_verdict(
            name,
            request,
        ) == Err::<(), ErrorView>(ErrorView::Invalid("batch requires 1–1000 operations"@)),
        batch_ids_verdict(batch_ids(request), i) is Ok && !valid_id(batch_ids(request)[i as int])
            ==> batch_ids_verdict(batch_ids(request), batch_ids(request).len()) == id_verdict(
            batch_ids(request)[i as int],
        ),
        batch_ids_verdict(batch_ids(request), i) is Ok && valid_id(batch_ids(request)[i as int])
            && batch_ids(request).take(i as int).contains(batch_ids(request)[i as int])
            ==> batch_ids_verdict(batch_ids(request), batch_ids(request).len()) == Err::<
            (),
            ErrorView,
        >(ErrorView::Invalid("a document ID may occur only once per batch"@)),
        form.serialized > 262144 ==> upsert_verdict(schema, document, form) == Err::<
            (),
            ErrorView,
        >(ErrorView::Invalid("serialized document exceeds 256 KiB"@)),
        form.serialized <= 262144 && document.attributes@.dom().len() > 64 ==> upsert_verdict(
            schema,
            document,
            form,
        ) == Err::<(), ErrorView>(ErrorView::Invalid("at most 64 attributes per document"@)),
        form.serialized <= 262144 && document.attributes@.dom().len() <= 64 && document.vector
            is Some ==> upsert_verdict(schema, document, form) == schema.vector_verdict(
            document.vector->0@,
        ),
{
    let ids = batch_ids(request);
    if batch_ids_verdict(ids, i) is Ok && batch_id_verdict(ids, i as int) is Err {
        lemma_first_id_decides(ids, i + 1, ids.len());
    }
}

} // verus!
