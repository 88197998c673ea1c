//! The logical keyspace: where each namespace keeps its schema, counters,
//! documents, vectors, pending changes and index generations.
use vstd::prelude::*;
use vstd::string::*;
use vstd::utf8::*;

use crate::binary::{from_le, le, lemma_from_le, lemma_le_from};
use crate::error::{corrupt, ErrorView, Result};
use crate::model::{id_char, valid_id};
use crate::outside::{batch_delete, batch_new, batch_ops, batch_put, BatchOps};
use crate::text::lemma_encode_injective;

verus! {

// ---------------------------------------------------------------------------
// Keys
// ---------------------------------------------------------------------------
/// `<kind>/<namespace>`: the single key of a kind.
pub open spec fn mark(kind: char, name: Seq<char>) -> Seq<char> {
    seq![kind, '/'] + name
}

/// `<kind>/<namespace>/`: where all keys of a kind start that carry an ID.
pub open spec fn members(kind: char, name: Seq<char>) -> Seq<char> {
    seq![kind, '/'] + name + seq!['/']
}

/// `<kind>/<namespace>/<id>`.
pub open spec fn member(kind: char, name: Seq<char>, id: Seq<char>) -> Seq<char> {
    members(kind, name) + id
}

/// `g/<namespace>/<generation>/`: where the keys of an index generation start.
pub open spec fn generation_root(name: Seq<char>, generation: Seq<char>) -> Seq<char> {
    member('g', name, generation) + seq!['/']
}

pub fn mark_key(kind: char, name: &str) -> (key: String)
    ensures
        key@ == mark(kind, name@),
{
    let mut key = String::new();
    key.push(kind);
    key.push('/');
    key.append(name);
    assert(key@ =~= mark(kind, name@));
    key
}

pub fn member_prefix(kind: char, name: &str) -> (key: String)
    ensures
        key@ == members(kind, name@),
{
    let mut key = mark_key(kind, name);
    key.push('/');
    assert(key@ =~= members(kind, name@));
    key
}

pub fn member_key(kind: char, name: &str, id: &str) -> (key: String)
    ensures
        key@ == member(kind, name@, id@),
{
    let mut key = member_prefix(kind, name);
    key.append(id);
    key
}

pub fn namespace_key(name: &str) -> (key: String)
    ensures
        key@ == mark('n', name@),
{
    mark_key('n', name)
}

pub fn document_prefix(name: &str) -> (key: String)
    ensures
        key@ == members('d', name@),
{
    member_prefix('d', name)
}

pub fn document_key(name: &str, id: &str) -> (key: String)
    ensures
        key@ == member('d', name@, id@),
{
    member_key('d', name, id)
}

pub fn vector_key(name: &str, id: &str) -> (key: String)
    ensures
        key@ == member('v', name@, id@),
{
    member_key('v', name, id)
}

pub fn change_key(name: &str, id: &str) -> (key: String)
    ensures
        key@ == member('c', name@, id@),
{
    member_key('c', name, id)
}

/// Where the keys of one index generation start.
pub fn root(namespace: &str, generation: &str) -> (key: String)
    ensures
        key@ == generation_root(namespace@, generation@),
{
    let mut key = member_key('g', namespace, generation);
    key.push('/');
    assert(key@ =~= generation_root(namespace@, generation@));
    key
}

/// A key belongs to a namespace if it is one of its marks or starts like its
/// members.
pub open spec fn belongs_by(key: Seq<char>, kind: char, name: Seq<char>) -> bool {
    mark(kind, name) == key || members(kind, name).is_prefix_of(key)
}

pub open spec fn belongs(key: Seq<char>, name: Seq<char>) -> bool {
    exists|kind: char| #[trigger] belongs_by(key, kind, name)
}

pub proof fn lemma_no_slash(name: Seq<char>)
    requires
        valid_id(name),
    ensures
        forall|i: int| 0 <= i < name.len() ==> #[trigger] name[i] != '/',
{
    assert forall|i: int| 0 <= i < name.len() implies #[trigger] name[i] != '/' by {
        assert(id_char(name[i]));
    }
}

/// The kind, namespace and ID of a key can be read off the key.
pub proof fn lemma_member_injective(
    k1: char,
    n1: Seq<char>,
    i1: Seq<char>,
    k2: char,
    n2: Seq<char>,
    i2: Seq<char>,
)
    requires
        valid_id(n1),
        valid_id(n2),
        member(k1, n1, i1) == member(k2, n2, i2),
    ensures
        k1 == k2,
        n1 == n2,
        i1 == i2,
{
    lemma_no_slash(n1);
    lemma_no_slash(n2);
    let a = member(k1, n1, i1);
    let b = member(k2, n2, i2);
    assert(a[0] == k1 && b[0] == k2);
    lemma_members_disjoint(k1, n1, k2, n2, a);
    assert(i1 =~= a.skip(3 + n1.len() as int));
    assert(i2 =~= b.skip(3 + n2.len() as int));
}

pub proof fn lemma_members_disjoint(
    k1: char,
    n1: Seq<char>,
    k2: char,
    n2: Seq<char>,
    key: Seq<char>,
)
    requires
        valid_id(n1),
        valid_id(n2),
        members(k1, n1).is_prefix_of(key),
        members(k2, n2).is_prefix_of(key),
    ensures
        k1 == k2,
        n1 == n2,
{
    lemma_no_slash(n1);
    lemma_no_slash(n2);
    let a = members(k1, n1);
    let b = members(k2, n2);
    assert(key.subrange(0, a.len() as int) =~= a);
    assert(key.subrange(0, b.len() as int) =~= b);
    assert forall|i: int| 0 <= i < a.len() implies #[trigger] a[i] == key[i] by {
        assert(key.subrange(0, a.len() as int)[i] == key[i]);
    }
    assert forall|i: int| 0 <= i < b.len() implies #[trigger] b[i] == key[i] by {
        assert(key.subrange(0, b.len() as int)[i] == key[i]);
    }
    assert(a[0] == k1 && b[0] == k2);
    if n1.len() < n2.len() {
        assert(a[2 + n1.len() as int] == '/');
        assert(b[2 + n1.len() as int] == n2[n1.len() as int]);
        assert(false);
    }
    if n2.len() < n1.len() {
        assert(b[2 + n2.len() as int] == '/');
        assert(a[2 + n2.len() as int] == n1[n2.len() as int]);
        assert(false);
    }
    assert forall|i: int| 0 <= i < n1.len() implies n1[i] == n2[i] by {
        assert(a[2 + i] == n1[i] && b[2 + i] == n2[i]);
    }
    assert(n1 =~= n2);
}

/// A mark never starts like a member, of its own namespace or another.
pub proof fn lemma_mark_not_member(k1: char, n1: Seq<char>, k2: char, n2: Seq<char>)
    requires
        valid_id(n1),
        valid_id(n2),
    ensures
        !members(k2, n2).is_prefix_of(mark(k1, n1)),
{
    lemma_no_slash(n1);
    let a = mark(k1, n1);
    let b = members(k2, n2);
    if b.is_prefix_of(a) {
        let at = 2 + n2.len() as int;
        assert(b[at] == '/');
        assert(a.subrange(0, b.len() as int)[at] == a[at]);
        assert(a.subrange(0, b.len() as int) =~= b);
        assert(a[at] == n1[at - 2]);
    }
}

pub proof fn lemma_mark_injective(k1: char, n1: Seq<char>, k2: char, n2: Seq<char>)
    requires
        mark(k1, n1) == mark(k2, n2),
    ensures
        k1 == k2,
        n1 == n2,
{
    let a = mark(k1, n1);
    let b = mark(k2, n2);
    assert(a[0] == k1 && b[0] == k2);
    assert(n1 =~= a.skip(2));
    assert(n2 =~= b.skip(2));
}

pub proof fn lemma_member_belongs(kind: char, name: Seq<char>, id: Seq<char>)
    ensures
        belongs(member(kind, name, id), name),
        members(kind, name).is_prefix_of(member(kind, name, id)),
{
    let key = member(kind, name, id);
    assert(key.subrange(0, members(kind, name).len() as int) =~= members(kind, name));
    assert(belongs_by(key, kind, name));
}

/// No key belongs to two namespaces: a valid name cannot reach into the keys
/// of another.
pub proof fn law_namespaces_isolated(key: Seq<char>, n1: Seq<char>, n2: Seq<char>)
    requires
        valid_id(n1),
        valid_id(n2),
        belongs(key, n1),
        belongs(key, n2),
    ensures
        n1 == n2,
{
    let k1 = choose|kind: char| #[trigger] belongs_by(key, kind, n1);
    let k2 = choose|kind: char| #[trigger] belongs_by(key, kind, n2);
    if mark(k1, n1) == key {
        lemma_mark_not_member(k1, n1, k2, n2);
        lemma_mark_injective(k1, n1, k2, n2);
    } else if mark(k2, n2) == key {
        lemma_mark_not_member(k2, n2, k1, n1);
    } else {
        lemma_members_disjoint(k1, n1, k2, n2, key);
    }
}

// ---------------------------------------------------------------------------
// Change revisions
// ---------------------------------------------------------------------------
/// A revision as it is stored: eight little-endian bytes.
pub open spec fn revision_bytes(revision: u64) -> Seq<u8> {
    le(revision as nat, 8)
}

/// Reads a stored revision.
pub fn revision(bytes: &[u8]) -> (result: Result<u64>)
    ensures
        match result {
            Ok(n) => bytes@ == revision_bytes(n),
            Err(e) => bytes@.len() != 8 && e@ == ErrorView::Corrupt("invalid revision"@),
        },
{
    if bytes.len() != 8 {
        return Err(corrupt("invalid revision"));
    }
    let n = read_u64(bytes, 0);
    proof {
        assert(bytes@.subrange(0, 8) =~= bytes@);
        lemma_from_le(bytes@);
    }
    Ok(n)
}

/// Reads eight little-endian bytes.
pub fn read_u64(bytes: &[u8], at: usize) -> (n: u64)
    requires
        at + 8 <= bytes@.len(),
    ensures
        n == from_le(bytes@.subrange(at as int, at + 8)),
{
    let low = crate::binary::read_u32(bytes, at);
    proof {
        assert(bytes@.len() == bytes.len());
    }
    let high = crate::binary::read_u32(bytes, at + 4);
    proof {
        let s = bytes@.subrange(at as int, at + 8);
        reveal_with_fuel(from_le, 5);
        let tail = s.drop_first().drop_first().drop_first().drop_first();
        assert(tail =~= bytes@.subrange(at + 4, at + 8));
        let front = bytes@.subrange(at as int, at + 4);
        assert(front.drop_first().drop_first().drop_first().drop_first().len() == 0);
        assert(from_le(s) == from_le(front) + 4294967296 * from_le(tail));
    }
    low as u64 + 4294967296 * (high as u64)
}

pub proof fn lemma_revision_injective(a: u64, b: u64)
    requires
        revision_bytes(a) == revision_bytes(b),
    ensures
        a == b,
{
    lemma_fits_64(a as nat);
    lemma_fits_64(b as nat);
    lemma_le_from(a as nat, 8);
    lemma_le_from(b as nat, 8);
}

pub proof fn lemma_fits_64(n: nat)
    requires
        n <= u64::MAX,
    ensures
        crate::binary::fits(n, 8),
{
    reveal_with_fuel(crate::binary::fits, 9);
}

// ---------------------------------------------------------------------------
// Operations
// ---------------------------------------------------------------------------
/// One change to the store: a value for the key, or its removal.
pub struct KeyOp {
    pub key: String,
    pub value: Option<Vec<u8>>,
}

pub struct Op {
    pub key: Seq<char>,
    pub value: Option<Seq<u8>>,
}

pub type Kv = Map<Seq<char>, Seq<u8>>;

pub open spec fn put_op(key: Seq<char>, value: Seq<u8>) -> Op {
    Op { key, value: Some(value) }
}

pub open spec fn delete_op(key: Seq<char>) -> Op {
    Op { key, value: None }
}

pub open spec fn op_view(op: KeyOp) -> Op {
    Op {
        key: op.key@,
        value: match op.value {
            Some(v) => Some(v@),
            None => None,
        },
    }
}

pub open spec fn ops_view(ops: Seq<KeyOp>) -> Seq<Op> {
    ops.map_values(|op: KeyOp| op_view(op))
}

/// The store after one operation.
pub open spec fn apply_op(db: Kv, op: Op) -> Kv {
    match op.value {
        Some(v) => db.insert(op.key, v),
        None => db.remove(op.key),
    }
}

/// The store after the operations, in order.
pub open spec fn apply(db: Kv, ops: Seq<Op>) -> Kv
    decreases ops.len(),
{
    if ops.len() == 0 {
        db
    } else {
        apply_op(apply(db, ops.drop_last()), ops.last())
    }
}

pub proof fn lemma_apply_concat(db: Kv, a: Seq<Op>, b: Seq<Op>)
    ensures
        apply(db, a + b) == apply(apply(db, a), b),
    decreases b.len(),
{
    if b.len() == 0 {
        assert(a + b =~= a);
    } else {
        lemma_apply_concat(db, a, b.drop_last());
        assert((a + b).drop_last() =~= a + b.drop_last());
    }
}

/// A key that no operation names keeps its value, or its absence.
pub proof fn lemma_apply_untouched(db: Kv, ops: Seq<Op>, key: Seq<char>)
    requires
        forall|i: int| 0 <= i < ops.len() ==> (#[trigger] ops[i]).key != key,
    ensures
        apply(db, ops).contains_key(key) == db.contains_key(key),
        db.contains_key(key) ==> apply(db, ops)[key] == db[key],
    decreases ops.len(),
{
    if ops.len() > 0 {
        assert forall|i: int| 0 <= i < ops.drop_last().len() implies (
        #[trigger] ops.drop_last()[i]).key != key by {
            assert(ops.drop_last()[i] == ops[i]);
        }
        lemma_apply_untouched(db, ops.drop_last(), key);
        assert(ops.last() == ops[ops.len() - 1]);
    }
}

pub fn put(ops: &mut Vec<KeyOp>, key: String, value: Vec<u8>)
    ensures
        ops_view(final(ops)@) == ops_view(old(ops)@).push(put_op(key@, value@)),
{
    ops.push(KeyOp { key, value: Some(value) });
    assert(ops_view(ops@) =~= ops_view(old(ops)@).push(put_op(key@, value@)));
}

pub fn delete(ops: &mut Vec<KeyOp>, key: String)
    ensures
        ops_view(final(ops)@) == ops_view(old(ops)@).push(delete_op(key@)),
{
    ops.push(KeyOp { key, value: None });
    assert(ops_view(ops@) =~= ops_view(old(ops)@).push(delete_op(key@)));
}

/// The operations as a SlateDB batch holds them: the last one per key counts.
pub open spec fn batched(ops: Seq<Op>) -> BatchOps
    decreases ops.len(),
{
    if ops.len() == 0 {
        BatchOps::empty()
    } else {
        batched(ops.drop_last()).insert(encode_utf8(ops.last().key), ops.last().value)
    }
}

/// What SlateDB accepts: no empty key, bounded keys and values.
pub open spec fn batchable(ops: Seq<Op>) -> bool {
    forall|i: int| 0 <= i < ops.len() ==> op_batchable(#[trigger] ops[i])
}

pub open spec fn op_batchable(op: Op) -> bool {
    &&& 0 < encode_utf8(op.key).len() <= u16::MAX
    &&& op.value is Some ==> op.value->0.len() <= u32::MAX
}

/// Whether SlateDB accepts every operation.
pub fn is_batchable(ops: &Vec<KeyOp>) -> (accepted: bool)
    ensures
        accepted == batchable(ops_view(ops@)),
{
    let ghost view = ops_view(ops@);
    let mut i: usize = 0;
    while i < ops.len()
        invariant
            i <= ops@.len(),
            view == ops_view(ops@),
            forall|j: int| 0 <= j < i ==> op_batchable(#[trigger] view[j]),
        decreases ops@.len() - i,
    {
        let size = ops[i].key.as_str().as_bytes().len();
        let fits = match &ops[i].value {
            Some(v) => v.len() as u64 <= 4294967295,
            None => true,
        };
        assert(view[i as int] == op_view(ops@[i as int]));
        if size == 0 || size > 65535 || !fits {
            assert(!op_batchable(view[i as int]));
            return false;
        }
        i += 1;
    }
    true
}

/// Collects the operations in one atomic SlateDB batch.
pub fn batch(ops: &Vec<KeyOp>) -> (result: slatedb::WriteBatch)
    requires
        batchable(ops_view(ops@)),
    ensures
        batch_ops(result) == batched(ops_view(ops@)),
{
    let ghost view = ops_view(ops@);
    let mut result = batch_new();
    let mut i: usize = 0;
    while i < ops.len()
        invariant
            i <= ops@.len(),
            view == ops_view(ops@),
            batchable(view),
            batch_ops(result) == batched(view.take(i as int)),
        decreases ops@.len() - i,
    {
        proof {
            assert(op_batchable(view[i as int]));
            assert(view[i as int] == op_view(ops@[i as int]));
            assert(view.take(i + 1).drop_last() =~= view.take(i as int));
        }
        match &ops[i].value {
            Some(value) => batch_put(&mut result, ops[i].key.as_str().as_bytes(), value.as_slice()),
            None => batch_delete(&mut result, ops[i].key.as_str().as_bytes()),
        }
        i += 1;
    }
    assert(view.take(i as int) =~= view);
    result
}

/// The operation that decides a key: the last one that names it.
pub open spec fn last_op(ops: Seq<Op>, key: Seq<char>) -> Option<Option<Seq<u8>>>
    decreases ops.len(),
{
    if ops.len() == 0 {
        None
    } else if ops.last().key == key {
        Some(ops.last().value)
    } else {
        last_op(ops.drop_last(), key)
    }
}

/// A batch holds, per key, exactly what applying the operations in order leaves
/// there; keys that it does not hold stay as they are.
pub proof fn law_batch_applies(db: Kv, ops: Seq<Op>, key: Seq<char>)
    ensures
        match last_op(ops, key) {
            Some(Some(value)) => apply(db, ops).contains_key(key) && apply(db, ops)[key] == value
                && batched(ops).contains_key(encode_utf8(key)) && batched(ops)[encode_utf8(key)]
                == Some(value),
            Some(None) => !apply(db, ops).contains_key(key) && batched(ops).contains_key(
                encode_utf8(key),
            ) && batched(ops)[encode_utf8(key)] == None::<Seq<u8>>,
            None => !batched(ops).contains_key(encode_utf8(key)) && apply(db, ops).contains_key(key)
                == db.contains_key(key) && (db.contains_key(key) ==> apply(db, ops)[key]
                == db[key]),
        },
    decreases ops.len(),
{
    if ops.len() > 0 {
        law_batch_applies(db, ops.drop_last(), key);
        if ops.last().key != key {
            lemma_encode_injective(ops.last().key, key);
        }
    }
}

/// The last operation that names a key decides it: a put leaves its value, a
/// delete nothing. A key that no operation names stays as it was.
pub proof fn law_last_operation_decides(db: Kv, ops: Seq<Op>, at: int, key: Seq<char>)
    requires
        0 <= at < ops.len(),
        forall|i: int| at < i < ops.len() ==> (#[trigger] ops[i]).key != ops[at].key,
    ensures
        ops[at].value is Some ==> apply(db, ops).contains_key(ops[at].key) && apply(
            db,
            ops,
        )[ops[at].key] == ops[at].value->0,
        ops[at].value is None ==> !apply(db, ops).contains_key(ops[at].key),
        (forall|i: int| 0 <= i < ops.len() ==> (#[trigger] ops[i]).key != key) ==> apply(
            db,
            ops,
        ).contains_key(key) == db.contains_key(key) && (db.contains_key(key) ==> apply(
            db,
            ops,
        )[key] == db[key]),
{
    let front = ops.take(at + 1);
    let rest = ops.skip(at + 1);
    assert(ops =~= front + rest);
    lemma_apply_concat(db, front, rest);
    assert(front.last() == ops[at]);
    assert forall|i: int| 0 <= i < rest.len() implies (#[trigger] rest[i]).key != ops[at].key by {
        assert(rest[i] == ops[at + 1 + i]);
    }
    lemma_apply_untouched(apply(db, front), rest, ops[at].key);
    if forall|i: int| 0 <= i < ops.len() ==> (#[trigger] ops[i]).key != key {
        lemma_apply_untouched(db, ops, key);
    }
}

/// The store takes every batch whose keys have 1 to 65535 bytes and whose values
/// have fewer than 4 GiB.
pub proof fn law_batches_taken(ops: Seq<Op>)
    ensures
        batchable(ops) <==> forall|i: int|
            0 <= i < ops.len() ==> {
                let op = #[trigger] ops[i];
                &&& 1 <= encode_utf8(op.key).len() && encode_utf8(op.key).len() <= 65535
                &&& op.value is Some ==> op.value->0.len() <= 4294967295
            },
{
    if batchable(ops) {
        assert forall|i: int| 0 <= i < ops.len() implies {
            let op = #[trigger] ops[i];
            &&& 1 <= encode_utf8(op.key).len() && encode_utf8(op.key).len() <= 65535
            &&& op.value is Some ==> op.value->0.len() <= 4294967295
        } by {
            assert(op_batchable(ops[i]));
        }
    }
}

/// A revision is stored in eight bytes, the lowest first, and read back from them.
pub proof fn law_revisions_read_back(revision: u64)
    ensures
        revision_bytes(revision).len() == 8,
        from_le(revision_bytes(revision)) == revision,
        revision_bytes(revision)[0] == revision % 256,
{
    crate::binary::lemma_le_len(revision as nat, 8);
    lemma_fits_64(revision as nat);
    lemma_le_from(revision as nat, 8);
    reveal_with_fuel(le, 2);
}

/// Where a namespace keeps what: `n/` its schema, `s/` its counters, `d/` its
/// documents, `v/` their vectors, `c/` its changes and `g/` its generations.
pub proof fn law_key_layout(kind: char, name: Seq<char>, id: Seq<char>)
    ensures
        mark(kind, name) == seq![kind, '/'] + name,
        member(kind, name, id) == seq![kind, '/'] + name + seq!['/'] + id,
        generation_root(name, id) == seq!['g', '/'] + name + seq!['/'] + id + seq!['/'],
        members(kind, name).is_prefix_of(member(kind, name, id)),
{
    lemma_member_belongs(kind, name, id);
}

/// Operations put and delete what they say.
pub proof fn law_operations_show_their_fields(ops: Seq<KeyOp>, i: int)
    requires
        0 <= i < ops.len(),
    ensures
        ops_view(ops).len() == ops.len(),
        ops_view(ops)[i].key == ops[i].key@,
        ops[i].value is Some ==> ops_view(ops)[i].value == Some(ops[i].value->0@),
        ops[i].value is None ==> ops_view(ops)[i].value is None,
{
}

} // verus!
