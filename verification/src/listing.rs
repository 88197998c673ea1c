//! Looking up and listing namespaces and documents, a page at a time.
use vstd::prelude::*;
use vstd::string::*;

use crate::error::{verdict, Error, ErrorView, Result, Verdict};
use crate::model::{
    id_verdict, valid_id, validate_id, Namespace, NamespaceConfig, NamespaceStats, Page,
    PageRequest,
};
use crate::outside::optional_text;
use crate::text::{
    lemma_text_asymmetric, lemma_text_irreflexive, lemma_text_transitive, text_lt, views,
};
use crate::textmap::ascending;

verus! {

// ---------------------------------------------------------------------------
// Lookups
// ---------------------------------------------------------------------------
pub open spec fn not_found(kind: Seq<char>, id: Seq<char>) -> ErrorView {
    ErrorView::NotFound(kind + " '"@ + id + "' not found"@)
}

fn missing(kind: &str, id: &str) -> (error: Error)
    ensures
        error@ == not_found(kind@, id@),
{
    let mut message = kind.to_string();
    message.append(" '");
    message.append(id);
    message.append("' not found");
    Error::NotFound(message)
}

pub open spec fn namespace_verdict(name: Seq<char>, present: bool) -> Verdict {
    if id_verdict(name) is Err {
        id_verdict(name)
    } else if !present {
        Err(not_found("namespace"@, name))
    } else {
        Ok(())
    }
}

/// Whether a request may use a namespace: its name is valid and it exists.
pub fn check_namespace(name: &str, present: bool) -> (result: Result<()>)
    ensures
        verdict(result) == namespace_verdict(name@, present),
{
    match validate_id(name) {
        Ok(_) => {},
        Err(e) => return Err(e),
    }
    if !present {
        return Err(missing("namespace", name));
    }
    Ok(())
}

/// A document that a valid ID names exists.
pub fn check_document(id: &str, present: bool) -> (result: Result<()>)
    ensures
        verdict(result) == if present {
            Ok(())
        } else {
            Err(not_found("document"@, id@))
        },
{
    if present {
        Ok(())
    } else {
        Err(missing("document", id))
    }
}

pub open spec fn creation_verdict(name: Seq<char>, config: NamespaceConfig) -> Verdict {
    if id_verdict(name) is Err {
        id_verdict(name)
    } else {
        config.config_verdict()
    }
}

/// Checks the name and schema of a namespace to create.
pub fn validate_creation(name: &str, config: &NamespaceConfig) -> (result: Result<()>)
    ensures
        verdict(result) == creation_verdict(name@, *config),
{
    match validate_id(name) {
        Ok(_) => config.validate(),
        Err(e) => Err(e),
    }
}

/// Decides a creation against the stored namespace of that name, if there is
/// one. Creating it again with the same schema succeeds and changes nothing; a
/// schema never changes. Returns whether the namespace has yet to be stored.
pub fn decide_creation(config: &NamespaceConfig, existing: Option<&Namespace>) -> (result: Result<bool>)
    ensures
        match result {
            Ok(store) => match existing {
                Some(found) => !store && found.config.same_as(*config),
                None => store,
            },
            Err(e) => existing is Some && !existing->0.config.same_as(*config) && e@
                == ErrorView::Conflict("namespace configuration is immutable"@),
        },
        match result {
            Ok(store) => creation_outcome(
                *config,
                match existing {
                    Some(found) => Some(found.config),
                    None => None,
                },
            ) == Some(store),
            Err(_) => creation_outcome(
                *config,
                match existing {
                    Some(found) => Some(found.config),
                    None => None,
                },
            ) is None,
        },
{
    match existing {
        Some(found) => {
            if found.config.equals(config) {
                Ok(false)
            } else {
                Err(Error::Conflict("namespace configuration is immutable".to_string()))
            }
        },
        None => Ok(true),
    }
}

// ---------------------------------------------------------------------------
// Pages
// ---------------------------------------------------------------------------
/// The IDs that follow the cursor.
pub open spec fn following(ids: Seq<Seq<char>>, after: Option<Seq<char>>) -> Seq<Seq<char>>
    decreases ids.len(),
{
    if ids.len() == 0 {
        Seq::empty()
    } else {
        let front = following(ids.drop_last(), after);
        if after is None || text_lt(after->0, ids.last()) {
            front.push(ids.last())
        } else {
            front
        }
    }
}

pub open spec fn page_length(available: nat, limit: nat) -> nat {
    if available <= limit {
        available
    } else {
        limit
    }
}

/// The cursor of a page: its last ID, if more follows.
pub open spec fn page_cursor(ids: Seq<Seq<char>>, limit: nat) -> Option<Seq<char>> {
    if ids.len() > limit && limit > 0 {
        Some(ids[limit - 1])
    } else {
        None
    }
}

/// Cuts a page from items whose IDs follow the cursor, in order. At least one
/// more than the limit must have been read, if there is one more.
pub fn collect_page<T>(items: Vec<T>, ids: &Vec<String>, limit: usize) -> (page: Page<T>)
    requires
        ids@.len() == items@.len(),
    ensures
        page.items@ == items@.take(page_length(items@.len(), limit as nat) as int),
        optional_text(page.next_cursor) == page_cursor(views(ids@), limit as nat),
{
    let mut items = items;
    let next_cursor = if items.len() > limit && limit > 0 {
        assert(views(ids@)[limit - 1] == ids@[limit - 1]@);
        Some(ids[limit - 1].clone())
    } else {
        None
    };
    if items.len() > limit {
        items.truncate(limit);
    }
    assert(items@ =~= items@.take(items@.len() as int));
    Page { items, next_cursor }
}

pub proof fn lemma_following_sorted(ids: Seq<Seq<char>>, after: Option<Seq<char>>)
    requires
        ascending(ids),
    ensures
        ascending(following(ids, after)),
        forall|id: Seq<char>| #[trigger]
            following(ids, after).contains(id) <==> ids.contains(id) && (after is None || text_lt(
                after->0,
                id,
            )),
    decreases ids.len(),
{
    if ids.len() > 0 {
        let front = ids.drop_last();
        let last = ids.last();
        assert(ascending(front)) by {
            assert forall|i: int, j: int|
                #![trigger front[i], front[j]]
                0 <= i < j < front.len() implies text_lt(front[i], front[j]) by {
                assert(front[i] == ids[i] && front[j] == ids[j]);
            }
        }
        lemma_following_sorted(front, after);
        let before = following(front, after);
        let all = following(ids, after);
        assert(ids =~= front.push(last));
        assert forall|id: Seq<char>| #[trigger] all.contains(id) <==> ids.contains(id) && (after is None
            || text_lt(after->0, id)) by {
            crate::search::lemma_push_contains(front, last, id);
            crate::search::lemma_push_contains(before, last, id);
        }
        assert forall|i: int, j: int|
            #![trigger all[i], all[j]]
            0 <= i < j < all.len() implies text_lt(all[i], all[j]) by {
            if j < before.len() {
                assert(all[i] == before[i] && all[j] == before[j]);
            } else {
                assert(before.contains(before[i]));
                assert(front.contains(before[i]));
                let k = choose|k: int| 0 <= k < front.len() && front[k] == before[i];
                assert(ids[k] == before[i] && ids[ids.len() - 1] == last);
            }
        }
    }
}

/// Pages cover a listing: what follows the cursor of a page is exactly what the
/// page left out, so that following the cursors visits every ID once, in order.
/// The last page, and only that, has no cursor.
pub proof fn law_pages_cover(ids: Seq<Seq<char>>, after: Option<Seq<char>>, limit: nat)
    requires
        ascending(ids),
        limit >= 1,
    ensures
        ({
            let available = following(ids, after);
            let shown = available.take(page_length(available.len(), limit) as int);
            let cursor = page_cursor(available, limit);
            &&& cursor is None <==> available.len() <= limit
            &&& cursor is Some ==> available == shown + following(ids, cursor)
            &&& cursor is None ==> available == shown
        }),
{
    let available = following(ids, after);
    let cursor = page_cursor(available, limit);
    lemma_following_sorted(ids, after);
    if cursor is Some {
        let last = available[limit - 1];
        let rest = available.skip(limit as int);
        lemma_following_sorted(ids, cursor);
        assert(available.contains(available[limit - 1]));
        assert(ascending(rest)) by {
            assert forall|i: int, j: int|
                #![trigger rest[i], rest[j]]
                0 <= i < j < rest.len() implies text_lt(rest[i], rest[j]) by {
                assert(rest[i] == available[limit + i] && rest[j] == available[limit + j]);
            }
        }
        assert forall|id: Seq<char>| #[trigger] rest.to_set().contains(id) == following(
            ids,
            cursor,
        ).to_set().contains(id) by {
            if rest.contains(id) {
                let i = choose|i: int| 0 <= i < rest.len() && rest[i] == id;
                assert(available[limit + i] == id);
                assert(available.contains(id));
                assert(text_lt(available[limit - 1], available[limit + i]));
            }
            if following(ids, cursor).contains(id) {
                if after is Some {
                    lemma_text_transitive(after->0, last, id);
                }
                assert(available.contains(id));
                let i = choose|i: int| 0 <= i < available.len() && available[i] == id;
                if i < limit {
                    if i == limit - 1 {
                        lemma_text_irreflexive(id);
                    } else {
                        assert(text_lt(available[i], available[limit - 1]));
                        lemma_text_asymmetric(id, last);
                    }
                }
                assert(rest[i - limit] == id);
            }
        }
        assert(rest.to_set() =~= following(ids, cursor).to_set());
        crate::textmap::lemma_ascending_unique(rest, following(ids, cursor));
        assert(available =~= available.take(limit as int) + rest);
    } else {
        assert(available =~= available.take(available.len() as int));
    }
}

// ---------------------------------------------------------------------------
// The background indexer
// ---------------------------------------------------------------------------
/// What the indexer does with a namespace.
#[derive(Clone, Copy, Debug, PartialEq, Eq, Structural)]
pub enum IndexerAction {
    Rebuild,
    ResumeCleanup,
}

/// Namespaces with pending changes are rebuilt; for the others an interrupted
/// cleanup, if any, is resumed. So is it where the counters cannot be read.
pub fn indexer_action(stats: Option<&NamespaceStats>) -> (action: IndexerAction)
    ensures
        action == IndexerAction::Rebuild <==> stats is Some && stats->0.pending_documents > 0,
        action == IndexerAction::Rebuild <==> awaits_indexing(
            match stats {
                Some(s) => Some(s.pending_documents),
                None => None,
            },
        ),
{
    match stats {
        Some(s) => if s.pending_documents > 0 {
            IndexerAction::Rebuild
        } else {
            IndexerAction::ResumeCleanup
        },
        None => IndexerAction::ResumeCleanup,
    }
}

/// The next page of a walk over all namespaces.
pub fn next_page(page: PageRequest, cursor: Option<String>) -> (next: Option<PageRequest>)
    ensures
        match next {
            Some(p) => cursor is Some && p.limit == page.limit && optional_text(p.after) == Some(
                cursor->0@,
            ),
            None => cursor is None,
        },
{
    match cursor {
        Some(after) => Some(PageRequest { limit: page.limit, after: Some(after) }),
        None => None,
    }
}

/// A page has as many items as there are, up to its limit. It has a cursor, the
/// ID of its last item, exactly if there is more.
pub proof fn law_pages_are_full(ids: Seq<Seq<char>>, limit: nat)
    requires
        limit >= 1,
    ensures
        page_length(ids.len(), limit) <= limit,
        ids.len() <= limit ==> page_length(ids.len(), limit) == ids.len(),
        ids.len() > limit ==> page_length(ids.len(), limit) == limit,
        page_cursor(ids, limit) == if ids.len() > limit {
            Some(ids[limit - 1])
        } else {
            None
        },
{
}

/// A namespace can be used if its name is valid and it exists, and created if its
/// name and its schema are valid. A missing one is told by its name.
pub proof fn law_namespaces_found(name: Seq<char>, present: bool, schema: NamespaceConfig)
    ensures
        namespace_verdict(name, present) is Ok <==> valid_id(name) && present,
        valid_id(name) && !present ==> namespace_verdict(name, present) == Err::<(), ErrorView>(
            ErrorView::NotFound("namespace '"@ + name + "' not found"@),
        ),
        creation_verdict(name, schema) is Ok <==> valid_id(name) && schema.config_verdict() is Ok,
{
    reveal_strlit("namespace '");
    reveal_strlit("namespace");
    reveal_strlit(" '");
    assert("namespace '"@ =~= "namespace"@ + " '"@);
}

/// Changes wait for an index; nothing is known without counters.
pub open spec fn awaits_indexing(pending: Option<u64>) -> bool {
    pending is Some && pending->0 != 0
}

/// Whether a namespace has yet to be stored; nothing if it cannot be created.
pub open spec fn creation_outcome(
    config: NamespaceConfig,
    existing: Option<NamespaceConfig>,
) -> Option<bool> {
    match existing {
        None => Some(true),
        Some(found) => if found.same_as(config) {
            Some(false)
        } else {
            None
        },
    }
}

/// A namespace is rebuilt as soon as one change is pending, and not without.
pub proof fn law_pending_changes_are_indexed(pending: u64)
    ensures
        pending >= 1 ==> awaits_indexing(Some(pending)),
        !awaits_indexing(Some(0)),
        !awaits_indexing(None),
{
}

/// A namespace is created once. Creating it again with the same schema changes
/// nothing; with another schema it is refused.
pub proof fn law_schemas_never_change(config: NamespaceConfig, other: NamespaceConfig)
    ensures
        creation_outcome(config, None) == Some(true),
        creation_outcome(config, Some(config)) == Some(false),
        other.dimensions != config.dimensions || other.metric != config.metric || views(
            other.text_fields@,
        ) != views(config.text_fields@) ==> creation_outcome(config, Some(other)) is None,
        creation_outcome(config, Some(other)) != Some(true),
{
}

/// A missing document or namespace is told by its kind and its ID.
pub proof fn law_missing_is_told(kind: Seq<char>, id: Seq<char>)
    ensures
        not_found(kind, id) == ErrorView::NotFound(kind + " '"@ + id + "' not found"@),
{
}

} // verus!
