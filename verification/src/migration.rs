//! The migration of a whole database: every namespace is converted under a
//! marker that says so, and an interrupted migration can start over.
use vstd::prelude::*;

use crate::backup::{
    converted, found_converted, found_unconverted, law_migration_converts_all,
    law_migration_resumes, lemma_others_untouched, migrated_bytes, migration_ops, migration_run,
    namespace_counters, namespace_migration,
};
use crate::binary::{decoded, law_vector_round_trip, vector_rows};
use crate::keys::{
    apply, belongs, belongs_by, law_namespaces_isolated, lemma_apply_concat, lemma_apply_untouched,
    lemma_mark_injective, lemma_mark_not_member, lemma_member_belongs, mark, member, members,
    put_op, Kv, Op,
};
use crate::maintenance::{flattened, format_current, format_migrating};
use crate::model::{valid_id, Document, NamespaceConfig, NamespaceStats};

verus! {

/// A namespace with its documents in key order, the JSON of each without its
/// vector, and the sizes of the vectors that were moved before.
pub struct Converting {
    pub name: Seq<char>,
    pub schema: NamespaceConfig,
    pub documents: Seq<Document>,
    pub encoded: Seq<Seq<u8>>,
    pub stored: Seq<Option<usize>>,
}

/// How counters are written.
pub type CounterForm = spec_fn(NamespaceStats) -> Seq<u8>;

impl Converting {
    /// What a migration can convert: valid documents, with counters that fit.
    pub open spec fn valid(self) -> bool {
        let n = self.documents.len();
        &&& valid_id(self.name)
        &&& self.schema.config_verdict() is Ok
        &&& self.encoded.len() == n
        &&& self.stored.len() == n
        &&& n <= u64::MAX
        &&& migrated_bytes(self.documents, self.encoded, self.stored, n) <= u64::MAX
        &&& forall|a: int, b: int|
            #![trigger self.documents[a], self.documents[b]]
            0 <= a < b < n ==> self.documents[a].id@ != self.documents[b].id@
        &&& forall|i: int|
            0 <= i < n && (#[trigger] self.documents[i]).vector is Some
                ==> self.schema.accepts_vector(self.documents[i].vector->0@)
    }

    /// The operations that convert the first `n` documents.
    pub open spec fn conversions(self, n: nat) -> Seq<Op> {
        namespace_migration(self.name, self.documents, self.encoded, n)
    }

    /// The counters once all documents are converted.
    pub open spec fn counters(self) -> NamespaceStats {
        namespace_counters(self.documents, self.encoded, self.stored, self.documents.len())
    }

    /// The operations of all batches: the conversions, then the counters.
    pub open spec fn ops(self, form: CounterForm) -> Seq<Op> {
        self.conversions(self.documents.len()) + seq![
            put_op(mark('s', self.name), form(self.counters())),
        ]
    }

    /// The migration writes the key.
    pub open spec fn writes(self, key: Seq<char>) -> bool {
        ||| key == mark('s', self.name)
        ||| exists|i: int| #[trigger] self.writes_document(key, i)
    }

    pub open spec fn writes_document(self, key: Seq<char>, i: int) -> bool {
        &&& 0 <= i < self.documents.len()
        &&& {
            ||| key == member('d', self.name, self.documents[i].id@)
            ||| key == member('v', self.name, self.documents[i].id@)
            ||| key == member('c', self.name, self.documents[i].id@)
        }
    }
}

/// Valid namespaces with different names.
pub open spec fn convertible(list: Seq<Converting>) -> bool {
    &&& forall|j: int| 0 <= j < list.len() ==> (#[trigger] list[j]).valid()
    &&& forall|i: int, j: int|
        #![trigger list[i], list[j]]
        0 <= i < j < list.len() ==> list[i].name != list[j].name
}

/// The operations on the first `n` namespaces.
pub open spec fn namespaces_ops(list: Seq<Converting>, form: CounterForm, n: nat) -> Seq<Op>
    decreases n,
{
    if n == 0 {
        Seq::empty()
    } else {
        namespaces_ops(list, form, (n - 1) as nat) + list[n - 1].ops(form)
    }
}

/// Where the marker says that a migration began.
pub open spec fn begun(db: Kv) -> Kv {
    db.insert("meta/format"@, format_migrating())
}

/// The database after a migration of all its namespaces.
pub open spec fn migrated(db: Kv, list: Seq<Converting>, form: CounterForm) -> Kv {
    apply(begun(db), namespaces_ops(list, form, list.len())).insert(
        "meta/format"@,
        format_current(),
    )
}

/// The database after a migration that stopped when `k` namespaces, and of the
/// next one `done` documents, had been converted.
pub open spec fn interrupted(
    db: Kv,
    list: Seq<Converting>,
    form: CounterForm,
    k: nat,
    done: nat,
) -> Kv {
    let whole = apply(begun(db), namespaces_ops(list, form, k));
    if k < list.len() {
        apply(whole, list[k as int].conversions(done))
    } else {
        whole
    }
}

/// The key has the same value in both, or is in neither.
pub open spec fn same_at(a: Kv, b: Kv, key: Seq<char>) -> bool {
    a.contains_key(key) == b.contains_key(key) && (a.contains_key(key) ==> a[key] == b[key])
}

/// A namespace after its migration: every document keeps its ID, attributes and
/// vector and awaits indexing, and the schema is as it was.
pub open spec fn namespace_migrated(
    before: Kv,
    after: Kv,
    namespace: Converting,
    form: CounterForm,
) -> bool {
    let n = namespace.documents.len();
    let name = namespace.name;
    &&& same_at(after, before, mark('n', name))
    &&& after.contains_key(mark('s', name)) && after[mark('s', name)] == form(namespace.counters())
    &&& namespace.counters().revision == 1
    &&& namespace.counters().documents == n
    &&& namespace.counters().pending_documents == n
    &&& namespace.counters().bytes == migrated_bytes(
        namespace.documents,
        namespace.encoded,
        namespace.stored,
        n,
    )
    &&& forall|i: int|
        0 <= i < n ==> converted(
            before,
            after,
            name,
            #[trigger] namespace.documents[i],
            namespace.encoded[i],
        )
    &&& forall|i: int|
        0 <= i < n && (#[trigger] namespace.documents[i]).vector is Some ==> decoded(
            after[member('v', name, namespace.documents[i].id@)],
        ) == Some(vector_rows(namespace.documents[i].vector->0@))
}

// ---------------------------------------------------------------------------
// Operations on one key
// ---------------------------------------------------------------------------
/// What operations leave at a key depends on what was there alone.
proof fn lemma_apply_local(a: Kv, b: Kv, ops: Seq<Op>, key: Seq<char>)
    requires
        same_at(a, b, key),
    ensures
        same_at(apply(a, ops), apply(b, ops), key),
    decreases ops.len(),
{
    if ops.len() > 0 {
        lemma_apply_local(a, b, ops.drop_last(), key);
    }
}

proof fn lemma_conversions_belong(namespace: Converting, n: nat, i: int)
    requires
        n <= namespace.documents.len(),
        0 <= i < namespace.conversions(n).len(),
    ensures
        belongs(namespace.conversions(n)[i].key, namespace.name),
    decreases n,
{
    if n > 0 {
        let m = (n - 1) as nat;
        let front = namespace.conversions(m);
        let document = namespace.documents[n - 1];
        let own = migration_ops(namespace.name, document, namespace.encoded[n - 1]);
        if i < front.len() {
            lemma_conversions_belong(namespace, m, i);
            assert(namespace.conversions(n)[i] == front[i]);
        } else {
            let key = own[i - front.len()].key;
            assert(namespace.conversions(n)[i].key == key);
            assert(key == member('v', namespace.name, document.id@) || key == member(
                'd',
                namespace.name,
                document.id@,
            ) || key == member('c', namespace.name, document.id@));
            lemma_member_belongs('v', namespace.name, document.id@);
            lemma_member_belongs('d', namespace.name, document.id@);
            lemma_member_belongs('c', namespace.name, document.id@);
        }
    }
}

/// A key that does not belong to a namespace is left alone by its conversion.
proof fn lemma_foreign_kept(db: Kv, namespace: Converting, form: CounterForm, n: nat, key: Seq<char>)
    requires
        n <= namespace.documents.len(),
        !belongs(key, namespace.name),
    ensures
        same_at(apply(db, namespace.conversions(n)), db, key),
        same_at(apply(db, namespace.ops(form)), db, key),
{
    let all = namespace.documents.len();
    let some = namespace.conversions(n);
    let ops = namespace.ops(form);
    let front = namespace.conversions(all);
    assert forall|i: int| 0 <= i < some.len() implies (#[trigger] some[i]).key != key by {
        lemma_conversions_belong(namespace, n, i);
    }
    assert forall|i: int| 0 <= i < ops.len() implies (#[trigger] ops[i]).key != key by {
        if i < front.len() {
            lemma_conversions_belong(namespace, all, i);
            assert(ops[i] == front[i]);
        } else {
            assert(ops[i].key == mark('s', namespace.name));
            assert(belongs_by(ops[i].key, 's', namespace.name));
        }
    }
    lemma_apply_untouched(db, some, key);
    lemma_apply_untouched(db, ops, key);
}

/// What the namespaces leave at a key of one of them is what that one leaves.
proof fn lemma_own_ops(
    db: Kv,
    list: Seq<Converting>,
    form: CounterForm,
    n: nat,
    j: int,
    key: Seq<char>,
)
    requires
        n <= list.len(),
        convertible(list),
        0 <= j < list.len(),
        belongs(key, list[j].name),
    ensures
        same_at(
            apply(db, namespaces_ops(list, form, n)),
            if j < n {
                apply(db, list[j].ops(form))
            } else {
                db
            },
            key,
        ),
    decreases n,
{
    if n > 0 {
        let m = (n - 1) as nat;
        let front = namespaces_ops(list, form, m);
        let before = apply(db, front);
        let last = list[m as int];
        lemma_own_ops(db, list, form, m, j, key);
        lemma_apply_concat(db, front, last.ops(form));
        if j == m {
            lemma_apply_local(before, db, last.ops(form), key);
        } else {
            assert(list[j].valid() && list[m as int].valid());
            assert(!belongs(key, last.name)) by {
                if belongs(key, last.name) {
                    law_namespaces_isolated(key, list[j].name, last.name);
                    if j < m {
                        assert(list[j].name != list[m as int].name);
                    } else {
                        assert(list[m as int].name != list[j].name);
                    }
                }
            }
            lemma_foreign_kept(before, last, form, 0, key);
        }
    }
}

/// A key that belongs to none of the namespaces is left alone.
proof fn lemma_no_ops(db: Kv, list: Seq<Converting>, form: CounterForm, n: nat, key: Seq<char>)
    requires
        n <= list.len(),
        forall|j: int| 0 <= j < list.len() ==> !belongs(key, (#[trigger] list[j]).name),
    ensures
        same_at(apply(db, namespaces_ops(list, form, n)), db, key),
    decreases n,
{
    if n > 0 {
        let m = (n - 1) as nat;
        let front = namespaces_ops(list, form, m);
        lemma_no_ops(db, list, form, m, key);
        lemma_apply_concat(db, front, list[m as int].ops(form));
        lemma_foreign_kept(apply(db, front), list[m as int], form, 0, key);
    }
}

proof fn lemma_marker_belongs_to_none(name: Seq<char>)
    ensures
        !belongs("meta/format"@, name),
{
    reveal_strlit("meta/format");
    let key = "meta/format"@;
    assert forall|kind: char| !#[trigger] belongs_by(key, kind, name) by {
        if mark(kind, name) == key {
            assert(mark(kind, name)[1] == '/');
        }
        if members(kind, name).is_prefix_of(key) {
            assert(key.subrange(0, members(kind, name).len() as int)[1] == key[1]);
            assert(members(kind, name)[1] == '/');
        }
    }
}

/// At a key of a namespace, a whole migration leaves what the conversion of that
/// namespace leaves.
proof fn lemma_migrated_at(
    db: Kv,
    list: Seq<Converting>,
    form: CounterForm,
    j: int,
    key: Seq<char>,
)
    requires
        convertible(list),
        0 <= j < list.len(),
        belongs(key, list[j].name),
    ensures
        key != "meta/format"@,
        same_at(migrated(db, list, form), apply(db, list[j].ops(form)), key),
{
    lemma_marker_belongs_to_none(list[j].name);
    lemma_own_ops(begun(db), list, form, list.len(), j, key);
    lemma_apply_local(begun(db), db, list[j].ops(form), key);
}

/// The keys that a conversion of one namespace writes and leaves.
proof fn lemma_namespace_at(db: Kv, namespace: Converting, form: CounterForm, key: Seq<char>)
    requires
        namespace.valid(),
    ensures
        ({
            let after = apply(db, namespace.ops(form));
            let plain = apply(db, namespace.conversions(namespace.documents.len()));
            &&& key == mark('s', namespace.name) ==> after.contains_key(key) && after[key] == form(
                namespace.counters(),
            )
            &&& key != mark('s', namespace.name) ==> same_at(after, plain, key)
            &&& !namespace.writes(key) ==> same_at(after, db, key)
        }),
{
    let n = namespace.documents.len();
    let front = namespace.conversions(n);
    let last = seq![put_op(mark('s', namespace.name), form(namespace.counters()))];
    let plain = apply(db, front);
    lemma_apply_concat(db, front, last);
    assert(last.drop_last() =~= Seq::<Op>::empty());
    assert(last.last() == put_op(mark('s', namespace.name), form(namespace.counters())));
    reveal_with_fuel(apply, 2);
    assert(apply(plain, last) == plain.insert(
        mark('s', namespace.name),
        form(namespace.counters()),
    ));
    if !namespace.writes(key) {
        assert forall|i: int| 0 <= i < n implies key != member(
            'd',
            namespace.name,
            (#[trigger] namespace.documents[i]).id@,
        ) && key != member('v', namespace.name, namespace.documents[i].id@) && key != member(
            'c',
            namespace.name,
            namespace.documents[i].id@,
        ) by {
            assert(!namespace.writes_document(key, i));
        }
        lemma_others_untouched(
            db,
            namespace.name,
            namespace.documents,
            namespace.encoded,
            key,
            n,
        );
    }
}

/// Neither the schema nor a document of a namespace is at the key of its counters.
proof fn lemma_counters_apart(name: Seq<char>, id: Seq<char>)
    requires
        valid_id(name),
    ensures
        mark('n', name) != mark('s', name),
        member('d', name, id) != mark('s', name),
        member('v', name, id) != mark('s', name),
        member('c', name, id) != mark('s', name),
        member('d', name, id) != mark('n', name),
        member('v', name, id) != mark('n', name),
        member('c', name, id) != mark('n', name),
{
    if mark('n', name) == mark('s', name) {
        lemma_mark_injective('n', name, 's', name);
    }
    lemma_member_belongs('d', name, id);
    lemma_member_belongs('v', name, id);
    lemma_member_belongs('c', name, id);
    lemma_mark_not_member('s', name, 'd', name);
    lemma_mark_not_member('s', name, 'v', name);
    lemma_mark_not_member('s', name, 'c', name);
    lemma_mark_not_member('n', name, 'd', name);
    lemma_mark_not_member('n', name, 'v', name);
    lemma_mark_not_member('n', name, 'c', name);
}

proof fn lemma_document_migrated(
    db: Kv,
    list: Seq<Converting>,
    form: CounterForm,
    j: int,
    i: int,
)
    requires
        convertible(list),
        0 <= j < list.len(),
        0 <= i < list[j].documents.len(),
    ensures
        ({
            let after = migrated(db, list, form);
            let document = list[j].documents[i];
            &&& converted(db, after, list[j].name, document, list[j].encoded[i])
            &&& document.vector is Some ==> decoded(
                after[member('v', list[j].name, document.id@)],
            ) == Some(vector_rows(document.vector->0@))
        }),
{
    let ns = list[j];
    let n = ns.documents.len();
    let id = ns.documents[i].id@;
    assert(list[j].valid());
    law_migration_converts_all(db, ns.name, ns.documents, ns.encoded, ns.stored);
    let plain = apply(db, ns.conversions(n));
    let run = migration_run(ns.name, ns.documents, ns.encoded, ns.stored, n);
    assert(plain == apply(db, flattened(run.done) + run.pending));
    assert(converted(db, plain, ns.name, ns.documents[i], ns.encoded[i]));
    lemma_counters_apart(ns.name, id);
    lemma_document_key(db, list, form, j, 'd', id);
    lemma_document_key(db, list, form, j, 'v', id);
    lemma_document_key(db, list, form, j, 'c', id);
    if ns.documents[i].vector is Some {
        assert(ns.schema.accepts_vector(ns.documents[i].vector->0@));
        law_vector_round_trip(ns.documents[i].vector->0@);
    }
}

proof fn lemma_document_key(
    db: Kv,
    list: Seq<Converting>,
    form: CounterForm,
    j: int,
    kind: char,
    id: Seq<char>,
)
    requires
        convertible(list),
        0 <= j < list.len(),
        member(kind, list[j].name, id) != mark('s', list[j].name),
    ensures
        same_at(
            migrated(db, list, form),
            apply(db, list[j].conversions(list[j].documents.len())),
            member(kind, list[j].name, id),
        ),
{
    assert(list[j].valid());
    lemma_member_belongs(kind, list[j].name, id);
    lemma_migrated_at(db, list, form, j, member(kind, list[j].name, id));
    lemma_namespace_at(db, list[j], form, member(kind, list[j].name, id));
}

/// A migration ends with the current marker. Every document of every namespace
/// then has its former ID, attributes and vector, the vector apart from the JSON,
/// and a change record; the counters say how many documents there are, that all
/// of them await indexing, and how many bytes they take; and every other key,
/// the schemas among them, is as it was.
pub proof fn law_database_migrates(db: Kv, list: Seq<Converting>, form: CounterForm)
    requires
        convertible(list),
    ensures
        ({
            let after = migrated(db, list, form);
            &&& after.contains_key("meta/format"@) && after["meta/format"@] == format_current()
            &&& forall|j: int|
                0 <= j < list.len() ==> namespace_migrated(db, after, #[trigger] list[j], form)
            &&& forall|key: Seq<char>|
                key != "meta/format"@ && (forall|j: int|
                    0 <= j < list.len() ==> !(#[trigger] list[j]).writes(key)) ==> #[trigger] same_at(
                    after,
                    db,
                    key,
                )
        }),
{
    let after = migrated(db, list, form);
    assert forall|j: int| 0 <= j < list.len() implies namespace_migrated(
        db,
        after,
        #[trigger] list[j],
        form,
    ) by {
        let ns = list[j];
        assert(list[j].valid());
        law_migration_converts_all(db, ns.name, ns.documents, ns.encoded, ns.stored);
        let s = mark('s', ns.name);
        let schema = mark('n', ns.name);
        assert(belongs_by(s, 's', ns.name));
        assert(belongs_by(schema, 'n', ns.name));
        lemma_migrated_at(db, list, form, j, s);
        lemma_migrated_at(db, list, form, j, schema);
        lemma_namespace_at(db, ns, form, s);
        assert(!ns.writes(schema)) by {
            lemma_counters_apart(ns.name, Seq::empty());
            assert forall|i: int| !#[trigger] ns.writes_document(schema, i) by {
                if 0 <= i < ns.documents.len() {
                    lemma_counters_apart(ns.name, ns.documents[i].id@);
                }
            }
        }
        lemma_namespace_at(db, ns, form, schema);
        assert forall|i: int| 0 <= i < ns.documents.len() implies converted(
            db,
            after,
            ns.name,
            #[trigger] ns.documents[i],
            ns.encoded[i],
        ) && (ns.documents[i].vector is Some ==> decoded(
            after[member('v', ns.name, ns.documents[i].id@)],
        ) == Some(vector_rows(ns.documents[i].vector->0@))) by {
            lemma_document_migrated(db, list, form, j, i);
        }
    }
    assert forall|key: Seq<char>|
        key != "meta/format"@ && (forall|j: int|
            0 <= j < list.len() ==> !(#[trigger] list[j]).writes(key)) implies #[trigger] same_at(
        after,
        db,
        key,
    ) by {
        if exists|j: int| 0 <= j < list.len() && belongs(key, (#[trigger] list[j]).name) {
            let j = choose|j: int| 0 <= j < list.len() && belongs(key, (#[trigger] list[j]).name);
            assert(list[j].valid());
            assert(!list[j].writes(key));
            lemma_migrated_at(db, list, form, j, key);
            lemma_namespace_at(db, list[j], form, key);
        } else {
            lemma_no_ops(begun(db), list, form, list.len(), key);
        }
    }
}

/// How many documents of a namespace an interrupted migration had converted.
pub open spec fn done_before(list: Seq<Converting>, k: nat, done: nat, j: int) -> nat {
    if j < k {
        list[j].documents.len()
    } else if j == k {
        done
    } else {
        0
    }
}

/// What a later migration finds of a namespace: the documents that were
/// converted without their vectors, the others as they were.
pub open spec fn found_again(first: Converting, again: Converting, done: nat) -> bool {
    let n = first.documents.len();
    &&& again.name == first.name
    &&& again.documents.len() == n
    &&& again.encoded == first.encoded
    &&& again.stored.len() == n
    &&& done <= n
    &&& forall|i: int|
        0 <= i < done ==> found_converted(
            #[trigger] first.documents[i],
            again.documents[i],
            first.stored[i],
            again.stored[i],
        )
    &&& forall|i: int|
        done <= i < n ==> found_unconverted(
            #[trigger] first.documents[i],
            again.documents[i],
            first.stored[i],
            again.stored[i],
        )
}

proof fn lemma_interrupted_at(
    db: Kv,
    list: Seq<Converting>,
    form: CounterForm,
    k: nat,
    done: nat,
    j: int,
    key: Seq<char>,
)
    requires
        convertible(list),
        k <= list.len(),
        k < list.len() ==> done <= list[k as int].documents.len(),
        0 <= j < list.len(),
        belongs(key, list[j].name),
    ensures
        same_at(
            interrupted(db, list, form, k, done),
            if j < k {
                apply(db, list[j].ops(form))
            } else {
                apply(db, list[j].conversions(done_before(list, k, done, j)))
            },
            key,
        ),
{
    let whole = apply(begun(db), namespaces_ops(list, form, k));
    lemma_marker_belongs_to_none(list[j].name);
    lemma_own_ops(begun(db), list, form, k, j, key);
    if j < k {
        lemma_apply_local(begun(db), db, list[j].ops(form), key);
    }
    if k < list.len() {
        let part = list[k as int].conversions(done);
        if j == k {
            lemma_apply_local(whole, db, part, key);
        } else {
            assert(list[j].valid() && list[k as int].valid());
            assert(!belongs(key, list[k as int].name)) by {
                if belongs(key, list[k as int].name) {
                    law_namespaces_isolated(key, list[j].name, list[k as int].name);
                    if j < k {
                        assert(list[j].name != list[k as int].name);
                    } else {
                        assert(list[k as int].name != list[j].name);
                    }
                }
            }
            lemma_foreign_kept(whole, list[k as int], form, done, key);
            if j > k {
                assert(list[j].conversions(0) =~= Seq::<Op>::empty());
            }
        }
    }
}

/// Converting a namespace again brings what converting it once brings.
proof fn lemma_again_at(
    db: Kv,
    first: Converting,
    again: Converting,
    form: CounterForm,
    done: nat,
    key: Seq<char>,
)
    requires
        first.valid(),
        again.valid(),
        found_again(first, again, done),
    ensures
        again.counters() == first.counters(),
        same_at(
            apply(apply(db, first.conversions(done)), again.ops(form)),
            apply(db, first.ops(form)),
            key,
        ),
        done == first.documents.len() ==> same_at(
            apply(apply(db, first.ops(form)), again.ops(form)),
            apply(db, first.ops(form)),
            key,
        ),
{
    let partial = apply(db, first.conversions(done));
    law_migration_resumes(
        db,
        first.name,
        first.documents,
        again.documents,
        first.encoded,
        first.stored,
        again.stored,
        done,
    );
    lemma_namespace_at(partial, again, form, key);
    lemma_namespace_at(db, first, form, key);
    if done == first.documents.len() {
        let full = apply(db, first.ops(form));
        lemma_namespace_at(full, again, form, key);
        if key != mark('s', first.name) {
            lemma_apply_local(full, partial, again.ops(form), key);
        }
    }
}

/// A migration can be interrupted anywhere and started over: however many
/// namespaces and documents the earlier run had converted, the later one leaves
/// the database that a run without interruption leaves.
pub proof fn law_database_migration_resumes(
    db: Kv,
    list: Seq<Converting>,
    again: Seq<Converting>,
    form: CounterForm,
    k: nat,
    done: nat,
)
    requires
        convertible(list),
        convertible(again),
        again.len() == list.len(),
        k <= list.len(),
        forall|j: int|
            0 <= j < list.len() ==> found_again(
                #[trigger] list[j],
                again[j],
                done_before(list, k, done, j),
            ),
    ensures
        migrated(interrupted(db, list, form, k, done), again, form) == migrated(db, list, form),
{
    let stopped = interrupted(db, list, form, k, done);
    let resumed = migrated(stopped, again, form);
    let whole = migrated(db, list, form);
    if k < list.len() {
        assert(found_again(list[k as int], again[k as int], done_before(list, k, done, k as int)));
    }
    assert forall|key: Seq<char>| #[trigger] same_at(resumed, whole, key) by {
        if key != "meta/format"@ {
            if exists|j: int| 0 <= j < list.len() && belongs(key, (#[trigger] list[j]).name) {
                let j = choose|j: int|
                    0 <= j < list.len() && belongs(key, (#[trigger] list[j]).name);
                let part = done_before(list, k, done, j);
                assert(list[j].valid() && again[j].valid());
                assert(found_again(list[j], again[j], part));
                lemma_interrupted_at(db, list, form, k, done, j, key);
                lemma_migrated_at(stopped, again, form, j, key);
                lemma_migrated_at(db, list, form, j, key);
                lemma_again_at(db, list[j], again[j], form, part, key);
                if j < k {
                    lemma_apply_local(
                        stopped,
                        apply(db, list[j].ops(form)),
                        again[j].ops(form),
                        key,
                    );
                } else {
                    lemma_apply_local(
                        stopped,
                        apply(db, list[j].conversions(part)),
                        again[j].ops(form),
                        key,
                    );
                }
            } else {
                assert forall|j: int| 0 <= j < again.len() implies !belongs(
                    key,
                    (#[trigger] again[j]).name,
                ) by {
                    assert(found_again(list[j], again[j], done_before(list, k, done, j)));
                }
                lemma_no_ops(begun(stopped), again, form, again.len(), key);
                lemma_no_ops(begun(db), list, form, list.len(), key);
                lemma_no_ops(begun(db), list, form, k, key);
                if k < list.len() {
                    lemma_foreign_kept(
                        apply(begun(db), namespaces_ops(list, form, k)),
                        list[k as int],
                        form,
                        done,
                        key,
                    );
                }
            }
        }
    }
    assert(resumed.dom() =~= whole.dom()) by {
        assert forall|key: Seq<char>| #[trigger] resumed.dom().contains(key)
            <==> whole.dom().contains(key) by {
            assert(same_at(resumed, whole, key));
        }
    }
    assert forall|key: Seq<char>| #[trigger] resumed.dom().contains(key) implies resumed[key]
        == whole[key] by {
        assert(same_at(resumed, whole, key));
    }
    assert(resumed =~= whole);
}

} // verus!
