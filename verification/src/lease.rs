//! Shard ownership by a lease object that is replaced conditionally. Standbys
//! measure how long they have watched an unchanged object; no clocks are
//! compared between machines.
//!
//! Instants are nanoseconds on a monotonic clock of the process.
use vstd::prelude::*;
use vstd::string::*;

use crate::config::{ClusterConfig, Config};
use crate::error::{corrupt, misconfigured, ErrorView, Result};
use crate::outside::{fresh_uuid, optional_text};
use crate::text::{copy_range, hex, law_hex_digits, push_hex, text_eq};

verus! {

/// What the lease object holds.
pub struct Lease {
    pub node: String,
    pub nonce: String,
    pub ttl_ms: u64,
}

/// Identifies one version of the lease object in the object store.
pub struct Version {
    pub e_tag: Option<String>,
    pub version: Option<String>,
}

pub struct VersionView {
    pub e_tag: Option<Seq<char>>,
    pub version: Option<Seq<char>>,
}

impl View for Version {
    type V = VersionView;

    open spec fn view(&self) -> VersionView {
        VersionView { e_tag: optional_text(self.e_tag), version: optional_text(self.version) }
    }
}

pub fn copy_optional(text: &Option<String>) -> (copy: Option<String>)
    ensures
        optional_text(copy) == optional_text(*text),
{
    match text {
        Some(t) => Some(t.clone()),
        None => None,
    }
}

impl Version {
    pub fn copy(&self) -> (copy: Version)
        ensures
            copy@ == self@,
    {
        Version { e_tag: copy_optional(&self.e_tag), version: copy_optional(&self.version) }
    }
}

pub open spec fn nanos(ms: u64) -> int {
    ms * 1000000
}

/// What the node does with the database that the lease guards.
#[derive(Clone, Copy, Debug)]
pub enum Phase {
    /// Nothing: another node may own it.
    Standby,
    /// The node owns it and is opening it.
    Opening,
    /// The node serves requests until the deadline.
    Serving(u128),
}

/// An ETag, and since when it has been seen.
pub struct Observation {
    pub tag: String,
    pub since: u64,
}

pub struct Watch {
    pub tag: Seq<char>,
    pub since: u64,
}

/// The state of one contender.
pub struct Contender {
    pub node: String,
    pub ttl_ms: u64,
    pub observed: Option<Observation>,
    /// The version of the lease object that this node wrote.
    pub owned: Option<Version>,
    /// Until when the last successful renewal lasts.
    pub deadline: u128,
    pub phase: Phase,
}

#[verifier::ext_equal]
pub struct ContenderView {
    pub ttl_ms: u64,
    pub observed: Option<Watch>,
    pub owned: Option<VersionView>,
    pub deadline: int,
    pub phase: Phase,
}

impl View for Contender {
    type V = ContenderView;

    open spec fn view(&self) -> ContenderView {
        ContenderView {
            ttl_ms: self.ttl_ms,
            observed: match self.observed {
                Some(seen) => Some(Watch { tag: seen.tag@, since: seen.since }),
                None => None,
            },
            owned: match self.owned {
                Some(v) => Some(v@),
                None => None,
            },
            deadline: self.deadline as int,
            phase: self.phase,
        }
    }
}

/// What came back from reading the lease object. A decoded lease gives its TTL.
pub enum LeaseRead {
    Found(Version, Result<u64>),
    Missing,
    Failed,
}

pub enum ReadView {
    Found(VersionView, std::result::Result<u64, ErrorView>),
    Missing,
    Failed,
}

impl View for LeaseRead {
    type V = ReadView;

    open spec fn view(&self) -> ReadView {
        match self {
            LeaseRead::Found(version, ttl) => ReadView::Found(
                version@,
                match ttl {
                    Ok(ms) => Ok(*ms),
                    Err(e) => Err(e@),
                },
            ),
            LeaseRead::Missing => ReadView::Missing,
            LeaseRead::Failed => ReadView::Failed,
        }
    }
}

/// How the lease object is to be written.
pub enum Put {
    /// Only if it does not exist.
    Create,
    /// Only in place of this version.
    Update(Version),
}

pub enum PutView {
    Create,
    Update(VersionView),
}

impl View for Put {
    type V = PutView;

    open spec fn view(&self) -> PutView {
        match self {
            Put::Create => PutView::Create,
            Put::Update(v) => PutView::Update(v@),
        }
    }
}

/// What follows a written, or possibly written, lease.
#[derive(Clone, Copy, Debug)]
pub enum Settled {
    /// Ownership is new: open the database, which fences the previous writer.
    Open,
    /// Ownership goes on: admit requests until the new deadline.
    Extend(u128),
    /// Ownership is lost or uncertain: stop serving.
    Retire,
}

#[derive(Clone, Copy, Debug)]
pub enum Opened {
    Serve(u128),
    /// The database opened after the deadline: close it again.
    Close,
    /// The database did not open.
    Drop,
}

// ---------------------------------------------------------------------------
// The rules
// ---------------------------------------------------------------------------
impl ContenderView {
    /// Serving and opening need ownership, and requests are admitted exactly
    /// until the deadline of the last renewal.
    pub open spec fn coherent(self) -> bool {
        &&& (self.owned is Some) == !(self.phase is Standby)
        &&& self.phase matches Phase::Serving(until) ==> until == self.deadline
        &&& 0 <= self.deadline <= u128::MAX
    }

    pub open spec fn dropped(self) -> ContenderView {
        ContenderView { observed: None, owned: None, phase: Phase::Standby, ..self }
    }

    /// Ownership ends at the deadline, or when the database has failed.
    pub open spec fn expires(self, now: u64, failed: bool) -> bool {
        self.owned is Some && (now >= self.deadline || failed)
    }

    pub open spec fn ticked(self, now: u64, failed: bool) -> ContenderView {
        if self.expires(now, failed) {
            self.dropped()
        } else {
            self
        }
    }

    /// The ETag has been watched, unchanged, for the whole TTL.
    pub open spec fn watched_out(self, now: u64, tag: Seq<char>, ttl_ms: u64) -> bool {
        &&& self.observed is Some
        &&& self.observed->0.tag == tag
        &&& now - self.observed->0.since >= nanos(ttl_ms)
    }

    pub open spec fn read_verdict(self, read: ReadView) -> std::result::Result<(), ErrorView> {
        match read {
            ReadView::Found(version, ttl) => if version.e_tag is None {
                Err(ErrorView::Config("lease object requires an ETag"@))
            } else {
                match ttl {
                    Err(e) => Err(e),
                    Ok(ms) => if 3000 <= ms <= 300000 {
                        Ok(())
                    } else {
                        Err(ErrorView::Corrupt("invalid lease TTL"@))
                    },
                }
            },
            _ => Ok(()),
        }
    }

    /// What a contender without ownership writes after a read.
    pub open spec fn attempt(self, now: u64, read: ReadView) -> Option<PutView> {
        match read {
            ReadView::Found(version, ttl) => if self.watched_out(now, version.e_tag->0, ttl->Ok_0) {
                Some(PutView::Update(version))
            } else {
                None
            },
            ReadView::Missing => Some(PutView::Create),
            ReadView::Failed => None,
        }
    }

    /// A new ETag starts a new observation.
    pub open spec fn after_read(self, now: u64, read: ReadView) -> ContenderView {
        match read {
            ReadView::Found(version, _) => if self.observed is Some && self.observed->0.tag
                == version.e_tag->0 {
                self
            } else {
                ContenderView { observed: Some(Watch { tag: version.e_tag->0, since: now }), ..self }
            },
            _ => self,
        }
    }

    /// A write counts only if it was acknowledged within the TTL.
    pub open spec fn kept(self, started: u64, now: u64, accepted: Option<VersionView>) -> bool {
        accepted is Some && now - started < nanos(self.ttl_ms)
    }

    /// The new deadline counts from the start of the request.
    pub open spec fn after_put(
        self,
        started: u64,
        now: u64,
        accepted: Option<VersionView>,
    ) -> ContenderView {
        if self.kept(started, now, accepted) {
            let deadline = started + nanos(self.ttl_ms);
            ContenderView {
                owned: accepted,
                deadline,
                phase: match self.phase {
                    Phase::Standby => Phase::Opening,
                    Phase::Opening => Phase::Opening,
                    Phase::Serving(_) => Phase::Serving(deadline as u128),
                },
                ..self
            }
        } else {
            self.dropped()
        }
    }

    pub open spec fn after_open(self, now: u64, opened: bool) -> ContenderView {
        if opened && now < self.deadline {
            ContenderView { phase: Phase::Serving(self.deadline as u128), ..self }
        } else {
            self.dropped()
        }
    }
}

// ---------------------------------------------------------------------------
// The machine
// ---------------------------------------------------------------------------
impl Contender {
    /// A contender for the database that a worker configuration names.
    pub fn new(config: &Config) -> (result: Result<Contender>)
        ensures
            match result {
                Ok(c) => {
                    &&& config.cluster matches Some(
                        ClusterConfig::Worker { node_id, lease_ms },
                    ) && c.node@ == node_id@ && c.ttl_ms == lease_ms
                    &&& c@.observed is None
                    &&& c@.owned is None
                    &&& c@.phase is Standby
                    &&& c@.deadline == 0
                },
                Err(e) => !(config.cluster matches Some(ClusterConfig::Worker { .. })) && e@
                    == ErrorView::Config("worker configuration required"@),
            },
    {
        match &config.cluster {
            Some(ClusterConfig::Worker { node_id, lease_ms }) => Ok(
                Contender {
                    node: node_id.clone(),
                    ttl_ms: *lease_ms,
                    observed: None,
                    owned: None,
                    deadline: 0,
                    phase: Phase::Standby,
                },
            ),
            _ => Err(misconfigured("worker configuration required")),
        }
    }

    fn drop_ownership(&mut self)
        ensures
            final(self)@ == old(self)@.dropped(),
            final(self).node@ == old(self).node@,
    {
        self.observed = None;
        self.owned = None;
        self.phase = Phase::Standby;
    }

    /// Starts a round. Returns whether the node must stop serving first.
    pub fn tick(&mut self, now: u64, failed: bool) -> (retire: bool)
        ensures
            retire == old(self)@.expires(now, failed),
            final(self)@ == old(self)@.ticked(now, failed),
            final(self).node@ == old(self).node@,
            old(self)@.coherent() ==> final(self)@.coherent(),
    {
        if self.owned.is_some() && (now as u128 >= self.deadline || failed) {
            self.drop_ownership();
            true
        } else {
            false
        }
    }

    /// The owner renews in place of its own version, without reading.
    pub fn renewal(&self) -> (put: Option<Put>)
        ensures
            match put {
                Some(p) => self@.owned is Some && p@ == PutView::Update(self@.owned->0),
                None => self@.owned is None,
            },
    {
        match &self.owned {
            Some(version) => Some(Put::Update(version.copy())),
            None => None,
        }
    }

    /// Decides what a contender without ownership does after a read.
    pub fn observe(&mut self, now: u64, read: LeaseRead) -> (result: Result<Option<Put>>)
        ensures
            final(self).node@ == old(self).node@,
            match result {
                Ok(put) => {
                    &&& old(self)@.read_verdict(read@) is Ok
                    &&& final(self)@ == old(self)@.after_read(now, read@)
                    &&& match put {
                        Some(p) => old(self)@.attempt(now, read@) == Some(p@),
                        None => old(self)@.attempt(now, read@) is None,
                    }
                },
                Err(e) => old(self)@.read_verdict(read@) == Err::<(), ErrorView>(e@) && final(self)@
                    == old(self)@,
            },
    {
        match read {
            LeaseRead::Found(version, ttl) => {
                let tag = match &version.e_tag {
                    Some(tag) => tag.clone(),
                    None => return Err(misconfigured("lease object requires an ETag")),
                };
                let ms = match ttl {
                    Ok(ms) => ms,
                    Err(e) => return Err(e),
                };
                if ms < 3000 || ms > 300000 {
                    return Err(corrupt("invalid lease TTL"));
                }
                match &self.observed {
                    Some(seen) => {
                        if text_eq(seen.tag.as_str(), tag.as_str()) {
                            let watched: u64 = if now >= seen.since {
                                now - seen.since
                            } else {
                                0
                            };
                            if watched as u128 >= ms as u128 * 1000000 {
                                return Ok(Some(Put::Update(version)));
                            }
                            return Ok(None);
                        }
                    },
                    None => {},
                }
                self.observed = Some(Observation { tag, since: now });
                Ok(None)
            },
            LeaseRead::Missing => Ok(Some(Put::Create)),
            LeaseRead::Failed => Ok(None),
        }
    }

    /// Decides what follows a write that began at `started`: `accepted` is the
    /// new version if the store acknowledged it in time.
    pub fn settle(&mut self, started: u64, now: u64, accepted: Option<Version>) -> (next: Settled)
        requires
            started <= now,
        ensures
            ({
                let view = match accepted {
                    Some(v) => Some(v@),
                    None => None,
                };
                &&& final(self)@ == old(self)@.after_put(started, now, view)
                &&& match next {
                    Settled::Open => old(self)@.kept(started, now, view) && old(self)@.owned is None,
                    Settled::Extend(until) => old(self)@.kept(started, now, view)
                        && old(self)@.owned is Some && until == started + nanos(old(self)@.ttl_ms),
                    Settled::Retire => !old(self)@.kept(started, now, view),
                }
                &&& next == old(self)@.settled(started, now, view)
            }),
            final(self).node@ == old(self).node@,
            old(self)@.coherent() ==> final(self)@.coherent(),
    {
        let ttl: u128 = self.ttl_ms as u128 * 1000000;
        let elapsed: u64 = now - started;
        match accepted {
            Some(version) => {
                if (elapsed as u128) < ttl {
                    let was_owner = self.owned.is_some();
                    let deadline: u128 = started as u128 + ttl;
                    self.owned = Some(version);
                    self.deadline = deadline;
                    self.phase = match self.phase {
                        Phase::Standby => Phase::Opening,
                        Phase::Opening => Phase::Opening,
                        Phase::Serving(_) => Phase::Serving(deadline),
                    };
                    if was_owner {
                        Settled::Extend(deadline)
                    } else {
                        Settled::Open
                    }
                } else {
                    self.drop_ownership();
                    Settled::Retire
                }
            },
            None => {
                self.drop_ownership();
                Settled::Retire
            },
        }
    }

    /// Decides what follows a finished attempt to open the database.
    pub fn opened(&mut self, now: u64, opened: bool) -> (next: Opened)
        requires
            old(self)@.coherent(),
            old(self)@.phase is Opening,
        ensures
            final(self)@ == old(self)@.after_open(now, opened),
            match next {
                Opened::Serve(until) => opened && now < old(self)@.deadline && until
                    == old(self)@.deadline,
                Opened::Close => opened && now >= old(self)@.deadline,
                Opened::Drop => !opened,
            },
            next == old(self)@.open_outcome(now, opened),
            final(self).node@ == old(self).node@,
            final(self)@.coherent(),
    {
        if !opened {
            self.drop_ownership();
            return Opened::Drop;
        }
        if (now as u128) < self.deadline {
            self.phase = Phase::Serving(self.deadline);
            Opened::Serve(self.deadline)
        } else {
            self.drop_ownership();
            Opened::Close
        }
    }

    /// The lease that this node writes next.
    pub fn lease(&self) -> (lease: Lease)
        ensures
            lease.node@ == self.node@,
            lease.ttl_ms == self.ttl_ms,
            exists|id: Seq<u8>| id.len() == 16 && lease.nonce@ == #[trigger] hyphenated(id),
    {
        Lease { node: self.node.clone(), nonce: nonce(), ttl_ms: self.ttl_ms }
    }

    /// Renewals, and the time limit of each, are a third of the TTL apart.
    pub fn interval(&self) -> (period: u128)
        ensures
            period == nanos(self.ttl_ms) / 3,
            period == renewal_period(self.ttl_ms),
    {
        self.ttl_ms as u128 * 1000000 / 3
    }
}

/// Requests are admitted before the deadline while the database is open.
pub fn admits(until: u128, now: u64, closed: bool) -> (admitted: bool)
    ensures
        admitted == (now < until && !closed),
        admitted == admitted_at(until, now, closed),
{
    (now as u128) < until && !closed
}

// ---------------------------------------------------------------------------
// Identifiers
// ---------------------------------------------------------------------------
/// The usual form of a UUID: hexadecimal digits in groups of 8, 4, 4, 4 and 12.
pub open spec fn hyphenated(id: Seq<u8>) -> Seq<char> {
    hex(id.subrange(0, 4)) + seq!['-'] + hex(id.subrange(4, 6)) + seq!['-'] + hex(
        id.subrange(6, 8),
    ) + seq!['-'] + hex(id.subrange(8, 10)) + seq!['-'] + hex(id.subrange(10, 16))
}

/// A random identifier in the usual form.
pub fn nonce() -> (text: String)
    ensures
        exists|id: Seq<u8>| id.len() == 16 && text@ == #[trigger] hyphenated(id),
{
    let id = fresh_uuid();
    let mut text = String::new();
    let a = copy_range(id.as_slice(), 0, 4);
    push_hex(&mut text, a.as_slice());
    text.push('-');
    let b = copy_range(id.as_slice(), 4, 6);
    push_hex(&mut text, b.as_slice());
    text.push('-');
    let c = copy_range(id.as_slice(), 6, 8);
    push_hex(&mut text, c.as_slice());
    text.push('-');
    let d = copy_range(id.as_slice(), 8, 10);
    push_hex(&mut text, d.as_slice());
    text.push('-');
    let e = copy_range(id.as_slice(), 10, 16);
    push_hex(&mut text, e.as_slice());
    assert(text@ =~= hyphenated(id@));
    text
}

/// Where the lease object of a database lies.
pub fn lease_path(prefix: &str) -> (path: String)
    ensures
        path@ == prefix@ + "/coordination/owner.json"@,
{
    let mut path = prefix.to_string();
    path.append("/coordination/owner.json");
    path
}

// ---------------------------------------------------------------------------
// What contenders guarantee
// ---------------------------------------------------------------------------
/// What happens to a contender.
pub enum Event {
    Tick(u64, bool),
    Read(u64, ReadView),
    Put(u64, u64, Option<VersionView>),
    Open(u64, bool),
}

/// The state after one event. Reads happen without ownership only, and end the
/// run if the object cannot be used; opens finish only while opening.
pub open spec fn after_event(state: ContenderView, event: Event) -> ContenderView {
    match event {
        Event::Tick(now, failed) => state.ticked(now, failed),
        Event::Read(now, read) => if state.owned is None && state.read_verdict(read) is Ok {
            state.after_read(now, read)
        } else {
            state
        },
        Event::Put(started, now, accepted) => state.after_put(started, now, accepted),
        Event::Open(now, opened) => if state.phase is Opening {
            state.after_open(now, opened)
        } else {
            state
        },
    }
}

pub open spec fn initial(ttl_ms: u64) -> ContenderView {
    ContenderView { ttl_ms, observed: None, owned: None, deadline: 0, phase: Phase::Standby }
}

pub open spec fn run(ttl_ms: u64, events: Seq<Event>) -> ContenderView
    decreases events.len(),
{
    if events.len() == 0 {
        initial(ttl_ms)
    } else {
        after_event(run(ttl_ms, events.drop_last()), events.last())
    }
}

/// The event reports the lease object with this ETag.
pub open spec fn sees(event: Event, tag: Seq<char>) -> bool {
    event matches Event::Read(_, ReadView::Found(version, _)) && version.e_tag == Some(tag)
}

/// Nothing but this ETag was seen, and nothing was written.
pub open spec fn undisturbed(event: Event, tag: Seq<char>) -> bool {
    match event {
        Event::Tick(_, _) => true,
        Event::Read(_, ReadView::Found(version, ttl)) => version.e_tag == Some(tag)
            || version.e_tag is None || !(ttl matches Ok(ms) && 3000 <= ms <= 300000),
        Event::Read(_, _) => true,
        Event::Put(_, _, _) => false,
        Event::Open(_, _) => true,
    }
}

/// Event `j` saw the ETag at `since`, and nothing disturbed it afterwards.
pub open spec fn watched_from(events: Seq<Event>, j: int, tag: Seq<char>, since: u64) -> bool {
    &&& 0 <= j < events.len()
    &&& sees(events[j], tag)
    &&& events[j] matches Event::Read(now, _) && now == since
    &&& forall|k: int| j <= k < events.len() ==> undisturbed(#[trigger] events[k], tag)
}

/// Ownership is coherent in every run: a node that serves or opens owns the
/// lease, and serves no longer than its last acknowledged renewal allows.
pub proof fn law_runs_coherent(ttl_ms: u64, events: Seq<Event>)
    ensures
        run(ttl_ms, events).coherent(),
        run(ttl_ms, events).ttl_ms == ttl_ms,
    decreases events.len(),
{
    if events.len() > 0 {
        law_runs_coherent(ttl_ms, events.drop_last());
    }
}

proof fn lemma_observation(ttl_ms: u64, events: Seq<Event>)
    ensures
        ({
            let state = run(ttl_ms, events);
            state.owned is None && state.observed is Some ==> exists|j: int| #[trigger]
                watched_from(events, j, state.observed->0.tag, state.observed->0.since)
        }),
    decreases events.len(),
{
    if events.len() > 0 {
        let before = events.drop_last();
        let prior = run(ttl_ms, before);
        let state = run(ttl_ms, events);
        let n = events.len() - 1;
        lemma_observation(ttl_ms, before);
        law_runs_coherent(ttl_ms, before);
        if state.owned is None && state.observed is Some {
            let tag = state.observed->0.tag;
            let since = state.observed->0.since;
            if prior.owned is None && prior.observed == state.observed {
                let j = choose|j: int| #[trigger] watched_from(before, j, tag, since);
                assert(watched_from(events, j, tag, since)) by {
                    assert(events[j] == before[j]);
                    assert forall|k: int| j <= k < events.len() implies undisturbed(
                        #[trigger] events[k],
                        tag,
                    ) by {
                        if k < n {
                            assert(before[k] == events[k]);
                        }
                    }
                }
            } else {
                assert(watched_from(events, n, tag, since));
            }
        }
    }
}

/// A standby replaces the lease of another node only after it has watched the
/// same ETag for the whole TTL: an earlier read saw that ETag at least the TTL
/// ago, and no read in between saw another and the node wrote nothing.
pub proof fn law_takeover_waits(
    ttl_ms: u64,
    events: Seq<Event>,
    now: u64,
    version: VersionView,
    lease_ms: u64,
)
    requires
        run(ttl_ms, events).owned is None,
        version.e_tag is Some,
        run(ttl_ms, events).attempt(now, ReadView::Found(version, Ok(lease_ms))) is Some,
    ensures
        run(ttl_ms, events).attempt(now, ReadView::Found(version, Ok(lease_ms))) == Some(
            PutView::Update(version),
        ),
        exists|j: int, since: u64| #[trigger]
            watched_from(events, j, version.e_tag->0, since) && now - since >= nanos(lease_ms),
{
    lemma_observation(ttl_ms, events);
    let state = run(ttl_ms, events);
    let since = state.observed->0.since;
    let j = choose|j: int| #[trigger] watched_from(events, j, version.e_tag->0, since);
    assert(watched_from(events, j, version.e_tag->0, since));
}

/// A write that was not acknowledged in time ends ownership at once, and the
/// node starts to watch anew.
pub proof fn law_uncertain_write_retires(state: ContenderView, started: u64, now: u64)
    ensures
        state.after_put(started, now, None).owned is None,
        state.after_put(started, now, None).phase is Standby,
        state.after_put(started, now, None).observed is None,
{
}

/// A deadline is never later than the start of an acknowledged renewal plus the
/// TTL, and a node past its deadline gives up at its next round.
pub proof fn law_deadline_conservative(
    state: ContenderView,
    started: u64,
    now: u64,
    accepted: VersionView,
    later: u64,
    failed: bool,
)
    requires
        state.coherent(),
        started <= now,
        state.kept(started, now, Some(accepted)),
    ensures
        ({
            let after = state.after_put(started, now, Some(accepted));
            &&& after.deadline == started + nanos(state.ttl_ms)
            &&& after.deadline > now
            &&& later >= after.deadline ==> after.ticked(later, failed).owned is None
                && after.ticked(later, failed).phase is Standby
        }),
{
}

/// A node serves only after the database was opened under its own lease: before
/// an open has finished in time it is opening at most.
pub proof fn law_serving_follows_open(ttl_ms: u64, events: Seq<Event>)
    requires
        run(ttl_ms, events).phase is Serving,
    ensures
        exists|j: int|
            0 <= j < events.len() && ((#[trigger] events[j]) matches Event::Open(now, ok) && ok && now
                < run(ttl_ms, events.take(j)).deadline && run(ttl_ms, events.take(j)).phase is Opening),
    decreases events.len(),
{
    let before = events.drop_last();
    let prior = run(ttl_ms, before);
    let n = events.len() - 1;
    if prior.phase is Serving {
        law_serving_follows_open(ttl_ms, before);
        let j = choose|j: int|
            0 <= j < before.len() && ((#[trigger] before[j]) matches Event::Open(now, ok) && ok && now
                < run(ttl_ms, before.take(j)).deadline && run(ttl_ms, before.take(j)).phase is Opening);
        assert(events[j] == before[j]);
        assert(events.take(j) =~= before.take(j));
    } else {
        assert(events.take(n) =~= before);
        assert(events[n] matches Event::Open(_, _));
    }
}

/// When a standby attempts to replace a lease, the deadline of the renewal that
/// wrote it has passed, so that the owner admits no request under it any more.
/// The clocks of the two nodes may differ by any offset; they run at the same
/// rate, and an ETag is not seen before the renewal that gave it has started.
pub proof fn law_takeover_follows_deadline(
    owner: ContenderView,
    started: u64,
    acknowledged: u64,
    accepted: VersionView,
    standby_ttl_ms: u64,
    events: Seq<Event>,
    now: u64,
    version: VersionView,
    offset: int,
)
    requires
        owner.coherent(),
        started <= acknowledged,
        owner.kept(started, acknowledged, Some(accepted)),
        run(standby_ttl_ms, events).owned is None,
        version.e_tag is Some,
        version.e_tag == accepted.e_tag,
        run(standby_ttl_ms, events).attempt(
            now,
            ReadView::Found(version, Ok(owner.ttl_ms)),
        ) is Some,
        forall|j: int|
            0 <= j < events.len() && sees(#[trigger] events[j], version.e_tag->0) ==> (events[j]
                matches Event::Read(at, _) && at - offset >= started),
    ensures
        now - offset >= owner.after_put(started, acknowledged, Some(accepted)).deadline,
{
    law_takeover_waits(standby_ttl_ms, events, now, version, owner.ttl_ms);
    law_deadline_conservative(owner, started, acknowledged, accepted, acknowledged, false);
    let (j, since) = choose|j: int, since: u64| #[trigger]
        watched_from(events, j, version.e_tag->0, since) && now - since >= nanos(owner.ttl_ms);
    assert(sees(events[j], version.e_tag->0));
}

// ---------------------------------------------------------------------------
// What each step does
// ---------------------------------------------------------------------------
/// An owner gives up at its deadline, or when the database fails, and then knows
/// nothing of the lease any more. Before that, and without ownership, time alone
/// changes nothing.
pub proof fn law_ownership_ends(state: ContenderView, now: u64, failed: bool)
    ensures
        state.owned is Some && (now >= state.deadline || failed) ==> state.expires(now, failed)
            && state.ticked(now, failed) == (ContenderView {
            ttl_ms: state.ttl_ms,
            observed: None,
            owned: None,
            deadline: state.deadline,
            phase: Phase::Standby,
        }),
        state.owned is None || (now < state.deadline && !failed) ==> !state.expires(now, failed)
            && state.ticked(now, failed) == state,
{
}

/// A standby that has seen one version of the lease for its whole TTL takes the
/// lease over, on the condition that it is still that version, and not before.
/// Reading the same version again does not start the wait anew; another version
/// does. A missing lease is created at once, and a failed read changes nothing.
pub proof fn law_standby_takes_over(
    state: ContenderView,
    version: VersionView,
    other: VersionView,
    ttl_ms: u64,
    first: u64,
    again: u64,
    now: u64,
)
    requires
        version.e_tag is Some,
        other.e_tag is Some,
        other.e_tag != version.e_tag,
        state.observed is Some ==> state.observed->0.tag != version.e_tag->0,
        first <= again <= now,
    ensures
        ({
            let found = ReadView::Found(version, Ok(ttl_ms));
            let seen = state.after_read(first, found);
            let changed = seen.after_read(again, ReadView::Found(other, Ok(ttl_ms)));
            &&& state.attempt(first, found) is None
            &&& seen.after_read(again, found) == seen
            &&& now - first >= ttl_ms * 1000000 ==> seen.attempt(now, found) == Some(
                PutView::Update(version),
            )
            &&& now - first < ttl_ms * 1000000 ==> seen.attempt(now, found) is None
            &&& now - again < ttl_ms * 1000000 ==> changed.attempt(
                now,
                ReadView::Found(other, Ok(ttl_ms)),
            ) is None
            &&& now - again >= ttl_ms * 1000000 ==> changed.attempt(
                now,
                ReadView::Found(other, Ok(ttl_ms)),
            ) == Some(PutView::Update(other))
        }),
        state.attempt(now, ReadView::Missing) == Some(PutView::Create),
        state.attempt(now, ReadView::Failed) is None,
        state.after_read(now, ReadView::Missing) == state,
        state.after_read(now, ReadView::Failed) == state,
        state.after_read(now, ReadView::Found(version, Ok(ttl_ms))) == (ContenderView {
            observed: Some(Watch { tag: version.e_tag->0, since: now }),
            ..state
        }),
{
}

/// A lease can be read if it has a tag and a TTL of 3 to 300 seconds.
pub proof fn law_leases_are_readable(
    state: ContenderView,
    version: VersionView,
    ttl: std::result::Result<u64, ErrorView>,
)
    ensures
        state.read_verdict(ReadView::Found(version, ttl)) is Ok <==> version.e_tag is Some && ttl
            is Ok && 3000 <= ttl->Ok_0 && ttl->Ok_0 <= 300000,
        state.read_verdict(ReadView::Missing) is Ok,
        state.read_verdict(ReadView::Failed) is Ok,
{
}

/// A write of the lease that is confirmed within the TTL makes its author the
/// owner for one TTL from when the write began: a new owner opens the database, a
/// serving one serves on. One that is confirmed later, or not at all, does not.
pub proof fn law_confirmed_write_owns(
    state: ContenderView,
    started: u64,
    now: u64,
    version: VersionView,
)
    requires
        started <= now,
    ensures
        ({
            let after = state.after_put(started, now, Some(version));
            let deadline = started + state.ttl_ms * 1000000;
            &&& now < deadline ==> state.kept(started, now, Some(version)) && after.owned == Some(
                version,
            ) && after.deadline == deadline && after.ttl_ms == state.ttl_ms
            &&& now < deadline && state.phase is Serving ==> after.phase == Phase::Serving(
                deadline as u128,
            )
            &&& now < deadline && !(state.phase is Serving) ==> after.phase == Phase::Opening
            &&& now >= deadline ==> !state.kept(started, now, Some(version)) && after.owned is None
                && after.phase is Standby
        }),
        !state.kept(started, now, None),
        state.after_put(started, now, None).owned is None,
        state.after_put(started, now, None).phase is Standby,
{
}

/// A database that opens before the deadline is served until then; one that opens
/// too late, or not at all, is given up with the lease.
pub proof fn law_open_before_deadline_serves(state: ContenderView, now: u64, opened: bool)
    requires
        state.coherent(),
    ensures
        opened && now < state.deadline ==> state.after_open(now, opened).phase == Phase::Serving(
            state.deadline as u128,
        ) && state.after_open(now, opened).owned == state.owned,
        !opened || now >= state.deadline ==> state.after_open(now, opened).phase is Standby
            && state.after_open(now, opened).owned is None,
{
}

/// A nonce has the usual form of a UUID: 32 hexadecimal digits in groups of 8, 4,
/// 4, 4 and 12, with hyphens between them.
pub proof fn law_nonces_are_hyphenated(id: Seq<u8>)
    requires
        id.len() == 16,
    ensures
        hyphenated(id).len() == 36,
        forall|i: int|
            0 <= i < 36 ==> (#[trigger] hyphenated(id)[i] == '-' <==> i == 8 || i == 13 || i == 18
                || i == 23),
        hyphenated(id).subrange(0, 8) == hex(id.subrange(0, 4)),
        hyphenated(id).subrange(24, 36) == hex(id.subrange(10, 16)),
{
    let a = id.subrange(0, 4);
    let b = id.subrange(4, 6);
    let c = id.subrange(6, 8);
    let d = id.subrange(8, 10);
    let e = id.subrange(10, 16);
    law_hex_digits(a, 0);
    law_hex_digits(b, 0);
    law_hex_digits(c, 0);
    law_hex_digits(d, 0);
    law_hex_digits(e, 0);
    let text = hyphenated(id);
    assert forall|i: int| 0 <= i < 36 implies (#[trigger] text[i] == '-' <==> i == 8 || i == 13 || i
        == 18 || i == 23) by {
        if i < 8 {
            assert(text[i] == hex(a)[i]);
        } else if 8 < i < 13 {
            assert(text[i] == hex(b)[i - 9]);
        } else if 13 < i < 18 {
            assert(text[i] == hex(c)[i - 14]);
        } else if 18 < i < 23 {
            assert(text[i] == hex(d)[i - 19]);
        } else if 23 < i {
            assert(text[i] == hex(e)[i - 24]);
        }
    }
    assert(text.subrange(0, 8) =~= hex(a));
    assert(text.subrange(24, 36) =~= hex(e));
}

/// A contender's state is in its fields.
pub proof fn law_contender_shows_its_fields(contender: Contender)
    ensures
        contender@.ttl_ms == contender.ttl_ms,
        contender@.deadline == contender.deadline,
        contender@.owned is Some <==> contender.owned is Some,
        contender@.observed is Some <==> contender.observed is Some,
        contender.owned is Some ==> contender@.owned->0 == contender.owned->0@,
        contender.observed is Some ==> contender@.observed->0.tag == contender.observed->0.tag@
            && contender@.observed->0.since == contender.observed->0.since,
        contender@.phase == contender.phase,
{
}

// ---------------------------------------------------------------------------
// What the caller is told
// ---------------------------------------------------------------------------
pub open spec fn renewal_period(ttl_ms: u64) -> int {
    ttl_ms * 1000000 / 3
}

pub open spec fn admitted_at(until: u128, now: u64, closed: bool) -> bool {
    !closed && now < until
}

impl ContenderView {
    /// What follows a write.
    pub open spec fn settled(
        self,
        started: u64,
        now: u64,
        accepted: Option<VersionView>,
    ) -> Settled {
        if !self.kept(started, now, accepted) {
            Settled::Retire
        } else if self.owned is None {
            Settled::Open
        } else {
            Settled::Extend((started + nanos(self.ttl_ms)) as u128)
        }
    }

    /// What follows an attempt to open the database.
    pub open spec fn open_outcome(self, now: u64, opened: bool) -> Opened {
        if !opened {
            Opened::Drop
        } else if now < self.deadline {
            Opened::Serve(self.deadline as u128)
        } else {
            Opened::Close
        }
    }
}

/// Three renewals fit into a TTL, and no fourth.
pub proof fn law_renewals_fit_the_ttl(ttl_ms: u64)
    ensures
        3 * renewal_period(ttl_ms) <= ttl_ms * 1000000,
        3 * renewal_period(ttl_ms) + 3 > ttl_ms * 1000000,
{
}

/// Requests are admitted until the deadline, and none once the database closed.
pub proof fn law_requests_admitted_until_deadline(until: u128, now: u64)
    ensures
        now < until ==> admitted_at(until, now, false),
        now >= until ==> !admitted_at(until, now, false),
        !admitted_at(until, now, true),
{
}

/// After a write the database is opened by a new owner, served on by an old one,
/// until one TTL after the write began, and given up otherwise.
pub proof fn law_writes_settle(state: ContenderView, started: u64, now: u64, version: VersionView)
    requires
        started <= now,
    ensures
        ({
            let deadline = started + state.ttl_ms * 1000000;
            let next = state.settled(started, now, Some(version));
            &&& now < deadline && state.owned is None ==> next is Open
            &&& now < deadline && state.owned is Some ==> next == Settled::Extend(deadline as u128)
            &&& now >= deadline ==> next is Retire
            &&& state.settled(started, now, None) is Retire
        }),
{
}

/// A database that opened in time is served until the deadline, one that opened
/// too late is closed again.
pub proof fn law_openings_settle(state: ContenderView, now: u64)
    ensures
        now < state.deadline ==> state.open_outcome(now, true) == Opened::Serve(
            state.deadline as u128,
        ),
        now >= state.deadline ==> state.open_outcome(now, true) is Close,
        state.open_outcome(now, false) is Drop,
{
}

} // verus!
