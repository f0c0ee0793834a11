//! Change feeds: for each watch on a collection or database, the metadata
//! of the stream and a bounded buffer of the events that arrived.
//!
//! A listener task, run by the caller, pulls from the driver's change
//! stream and hands each outcome to `deliver`, which decides what is kept
//! and whether the listener goes on.

use vstd::prelude::*;
use crate::bounded::{keep_last, newest_first, BoundedLog, CAPACITY};
use crate::clock::{now, Timestamp};
use crate::ids::fresh_id;
use crate::keyed::{slot_of, IdMap};
use crate::text::same_text;

verus! {

/// How many events `poll` returns when the caller names no limit.
pub const DEFAULT_POLL_LIMIT: usize = 100;

/// Where a change feed stands in its life.
#[derive(Clone, Copy, Debug, PartialEq, Eq, Structural)]
pub enum FeedPhase {
    /// The subscription to the driver's change stream is being opened.
    Starting,
    /// The listener is running and events are buffered.
    Active,
    /// The listener has ended; buffered events stay readable.
    Inactive,
}

/// What can happen to a change feed.
#[derive(Clone, Copy, Debug, PartialEq, Eq, Structural)]
pub enum FeedSignal {
    /// The driver accepted the subscription.
    Subscribed,
    /// The driver's stream came to its end.
    Ended,
    /// Reading the driver's stream failed.
    Failed,
    /// The caller stopped the feed.
    Stopped,
}

/// The phase that follows `phase` on `signal`: a starting feed becomes
/// active when the driver accepts the subscription; an active feed becomes
/// inactive when the driver's stream ends or fails or the feed is stopped;
/// nothing else changes the phase.
pub open spec fn next_phase(phase: FeedPhase, signal: FeedSignal) -> FeedPhase {
    match (phase, signal) {
        (FeedPhase::Starting, FeedSignal::Subscribed) => FeedPhase::Active,
        (FeedPhase::Active, FeedSignal::Ended) => FeedPhase::Inactive,
        (FeedPhase::Active, FeedSignal::Failed) => FeedPhase::Inactive,
        (FeedPhase::Active, FeedSignal::Stopped) => FeedPhase::Inactive,
        _ => phase,
    }
}

pub fn advance(phase: FeedPhase, signal: FeedSignal) -> (r: FeedPhase)
    ensures
        r == next_phase(phase, signal),
{
    match (phase, signal) {
        (FeedPhase::Starting, FeedSignal::Subscribed) => FeedPhase::Active,
        (FeedPhase::Active, FeedSignal::Ended) => FeedPhase::Inactive,
        (FeedPhase::Active, FeedSignal::Failed) => FeedPhase::Inactive,
        (FeedPhase::Active, FeedSignal::Stopped) => FeedPhase::Inactive,
        _ => phase,
    }
}

/// The phase of a registered feed with the given liveness flag.
pub open spec fn phase_of(is_active: bool) -> FeedPhase {
    if is_active {
        FeedPhase::Active
    } else {
        FeedPhase::Inactive
    }
}

/// There is no way back: whatever happens to an inactive feed, it stays
/// inactive, and a feed is active only if it was active before or has just
/// subscribed.
pub proof fn lemma_inactive_is_final(phase: FeedPhase, signal: FeedSignal)
    ensures
        next_phase(FeedPhase::Inactive, signal) == FeedPhase::Inactive,
        next_phase(phase, signal) == FeedPhase::Active ==> phase == FeedPhase::Active || (phase
            == FeedPhase::Starting && signal == FeedSignal::Subscribed),
        next_phase(phase, signal) == FeedPhase::Starting ==> phase == FeedPhase::Starting,
{
}

/// The metadata of one change feed.
pub struct ChangeStreamInfo<P> {
    pub id: String,
    /// The connection the feed was opened on.
    pub connection_id: String,
    pub database: String,
    /// The watched collection; `None` when the whole database is watched.
    pub collection: Option<String>,
    pub filter: Option<P>,
    /// The operation kinds the caller asked for; empty when all are wanted.
    pub operation_types: Vec<String>,
    pub started_at: Timestamp,
    /// Whether the listener is still running.
    pub is_active: bool,
}

pub ghost struct ChangeStreamInfoView<P> {
    pub id: Seq<char>,
    pub connection_id: Seq<char>,
    pub database: Seq<char>,
    pub collection: Option<Seq<char>>,
    pub filter: Option<P>,
    pub operation_types: Seq<Seq<char>>,
    pub started_at: Timestamp,
    pub is_active: bool,
}

impl<P> View for ChangeStreamInfo<P> {
    type V = ChangeStreamInfoView<P>;

    open spec fn view(&self) -> ChangeStreamInfoView<P> {
        ChangeStreamInfoView {
            id: self.id@,
            connection_id: self.connection_id@,
            database: self.database@,
            collection: self.collection.deep_view(),
            filter: self.filter,
            operation_types: self.operation_types.deep_view(),
            started_at: self.started_at,
            is_active: self.is_active,
        }
    }
}

/// What the listener handed over after waiting on the driver's stream.
pub enum FeedEvent<P> {
    /// A change event, already serialized.
    Change(P),
    /// A change event arrived and could not be serialized.
    Unreadable,
    /// The driver's stream has ended.
    Ended,
    /// Reading the driver's stream failed.
    Failed,
}

/// What the listener does after a delivery.
#[derive(Clone, Copy, Debug, PartialEq, Eq, Structural)]
pub enum FeedStep {
    /// Wait for the next event.
    Continue,
    /// Exit: the feed is inactive or no longer exists.
    Stop,
}

struct Feed<P> {
    info: ChangeStreamInfo<P>,
    events: BoundedLog<P>,
}

/// All change feeds, by stream identifier.
pub struct ChangeFeeds<P> {
    store: IdMap<Feed<P>>,
}

/// The entries of `infos` that belong to `connection`; all of them when no
/// connection is named.
pub open spec fn owned_by<P>(
    infos: Seq<ChangeStreamInfoView<P>>,
    connection: Option<Seq<char>>,
) -> Seq<ChangeStreamInfoView<P>> {
    infos.filter(
        |info: ChangeStreamInfoView<P>|
            match connection {
                Some(c) => info.connection_id == c,
                None => true,
            },
    )
}

/// The limit a poll works with.
pub open spec fn poll_limit(limit: Option<usize>) -> nat {
    match limit {
        Some(n) => n as nat,
        None => DEFAULT_POLL_LIMIT as nat,
    }
}

impl<P> ChangeFeeds<P> {
    /// The identifiers of the feeds, in the order they were registered.
    pub closed spec fn ids(&self) -> Seq<Seq<char>> {
        self.store.keys()
    }

    /// The metadata of each feed, in the order of `ids`.
    pub closed spec fn infos(&self) -> Seq<ChangeStreamInfoView<P>> {
        Seq::new(self.store.values().len(), |i: int| self.store.values()[i].info@)
    }

    /// The buffered events of each feed, oldest first, in the order of `ids`.
    pub closed spec fn buffers(&self) -> Seq<Seq<P>> {
        Seq::new(self.store.values().len(), |i: int| self.store.values()[i].events@)
    }

    /// Each identifier names one feed, which reports that identifier, and
    /// no buffer holds more than `CAPACITY` events.
    pub open spec fn wf(&self) -> bool {
        &&& self.ids().len() == self.infos().len()
        &&& self.ids().len() == self.buffers().len()
        &&& self.ids().no_duplicates()
        &&& forall|i: int|
            0 <= i < self.ids().len() ==> (#[trigger] self.infos()[i]).id == self.ids()[i]
        &&& forall|i: int| 0 <= i < self.ids().len() ==> (#[trigger] self.buffers()[i]).len() <= CAPACITY
    }

    pub open spec fn is_known(&self, id: Seq<char>) -> bool {
        self.ids().contains(id)
    }

    /// The metadata of feed `id`, where `id` names a feed.
    pub open spec fn info_of(&self, id: Seq<char>) -> ChangeStreamInfoView<P>
        recommends
            self.is_known(id),
    {
        self.infos()[self.ids().index_of(id)]
    }

    /// What `poll` returns for `id`: the newest events first, and nothing
    /// for an identifier that names no feed.
    pub open spec fn poll_result(&self, id: Seq<char>, limit: nat) -> Seq<P> {
        match slot_of(self.ids(), id) {
            Some(i) => newest_first(self.buffers()[i], limit),
            None => Seq::empty(),
        }
    }

    /// `after` is this set of feeds once a feed with metadata `info` and an
    /// empty buffer was stored under `info.id`.
    pub open spec fn registered(&self, after: &Self, info: ChangeStreamInfoView<P>) -> bool {
        match slot_of(self.ids(), info.id) {
            Some(i) => {
                &&& after.ids() == self.ids()
                &&& after.infos() == self.infos().update(i, info)
                &&& after.buffers() == self.buffers().update(i, Seq::empty())
            },
            None => {
                &&& after.ids() == self.ids().push(info.id)
                &&& after.infos() == self.infos().push(info)
                &&& after.buffers() == self.buffers().push(Seq::empty())
            },
        }
    }

    /// What the listener of feed `id` is told after handing over `event`.
    pub open spec fn delivery_step(&self, id: Seq<char>, event: FeedEvent<P>) -> FeedStep {
        match slot_of(self.ids(), id) {
            Some(i) => if (event is Change || event is Unreadable) && self.infos()[i].is_active {
                FeedStep::Continue
            } else {
                FeedStep::Stop
            },
            None => FeedStep::Stop,
        }
    }

    /// `after` is this set of feeds once `event` was delivered to feed
    /// `id`. A change event is appended to the buffer of an active feed,
    /// which evicts its oldest event when full; one that could not be
    /// serialized is passed over. The end or a failure of the driver's
    /// stream makes the feed inactive. A feed that is inactive or unknown
    /// takes nothing in.
    pub open spec fn delivered(&self, after: &Self, id: Seq<char>, event: FeedEvent<P>) -> bool {
        &&& after.ids() == self.ids()
        &&& match slot_of(self.ids(), id) {
            Some(i) => match event {
                FeedEvent::Change(p) => {
                    &&& after.infos() == self.infos()
                    &&& after.buffers() == if self.infos()[i].is_active {
                        self.buffers().update(
                            i,
                            keep_last(self.buffers()[i].push(p), CAPACITY as nat),
                        )
                    } else {
                        self.buffers()
                    }
                },
                FeedEvent::Unreadable => {
                    &&& after.infos() == self.infos()
                    &&& after.buffers() == self.buffers()
                },
                _ => {
                    &&& after.infos() == self.infos().update(
                        i,
                        ChangeStreamInfoView { is_active: false, ..self.infos()[i] },
                    )
                    &&& after.buffers() == self.buffers()
                },
            },
            None => after.infos() == self.infos() && after.buffers() == self.buffers(),
        }
    }

    /// `after` is this set of feeds once feed `id` was stopped.
    pub open spec fn stopped(&self, after: &Self, id: Seq<char>) -> bool {
        match slot_of(self.ids(), id) {
            Some(i) => {
                &&& after.ids() == self.ids().remove(i)
                &&& after.infos() == self.infos().remove(i)
                &&& after.buffers() == self.buffers().remove(i)
            },
            None => {
                &&& after.ids() == self.ids()
                &&& after.infos() == self.infos()
                &&& after.buffers() == self.buffers()
            },
        }
    }

    pub fn new() -> (f: Self)
        ensures
            f.wf(),
            f.ids() == Seq::<Seq<char>>::empty(),
    {
        let f = ChangeFeeds { store: IdMap::new() };
        assert(f.infos() =~= Seq::empty());
        assert(f.buffers() =~= Seq::empty());
        f
    }

    pub fn len(&self) -> (n: usize)
        requires
            self.wf(),
        ensures
            n == self.ids().len(),
    {
        self.store.len()
    }

    /// Stores a feed whose subscription the driver has accepted: active,
    /// with an empty buffer. Without operation kinds, none are recorded.
    pub fn register(
        &mut self,
        stream_id: String,
        connection_id: String,
        database: String,
        collection: Option<String>,
        filter: Option<P>,
        operation_types: Option<Vec<String>>,
        started_at: Timestamp,
    )
        requires
            old(self).wf(),
        ensures
            final(self).wf(),
            old(self).registered(
                final(self),
                ChangeStreamInfoView {
                    id: stream_id@,
                    connection_id: connection_id@,
                    database: database@,
                    collection: collection.deep_view(),
                    filter,
                    operation_types: match operation_types {
                        Some(kinds) => kinds.deep_view(),
                        None => Seq::empty(),
                    },
                    started_at,
                    is_active: true,
                },
            ),
            final(self).is_known(stream_id@),
            final(self).info_of(stream_id@).started_at == started_at,
            final(self).poll_result(stream_id@, CAPACITY as nat) == Seq::<P>::empty(),
    {
        let kinds = match operation_types {
            Some(kinds) => kinds,
            None => {
                let none: Vec<String> = Vec::new();
                assert(none.deep_view() =~= Seq::empty());
                none
            },
        };
        let key = stream_id.clone();
        let info = ChangeStreamInfo {
            id: stream_id,
            connection_id,
            database,
            collection,
            filter,
            operation_types: kinds,
            started_at,
            is_active: true,
        };
        let ghost slot = slot_of(self.ids(), key@);
        self.store.insert(key, Feed { info, events: BoundedLog::new() });
        proof {
            match slot {
                Some(i) => {
                    assert(self.infos() =~= old(self).infos().update(i, info@));
                    assert(self.buffers() =~= old(self).buffers().update(i, Seq::empty()));
                    assert(self.ids()[i] == key@);
                },
                None => {
                    assert(self.infos() =~= old(self).infos().push(info@));
                    assert(self.buffers() =~= old(self).buffers().push(Seq::empty()));
                    let n = old(self).ids().len() as int;
                    assert(self.ids()[n] == key@);
                    assert forall|a: int, b: int|
                        0 <= a < self.ids().len() && 0 <= b < self.ids().len() && a
                            != b implies self.ids()[a] != self.ids()[b] by {
                        if a < n {
                            assert(old(self).ids().contains(self.ids()[a]));
                        }
                        if b < n {
                            assert(old(self).ids().contains(self.ids()[b]));
                        }
                    }
                    assert(self.ids().contains(key@));
                    assert(self.ids()[self.ids().index_of(key@)] == key@);
                },
            }
            assert(newest_first(Seq::<P>::empty(), CAPACITY as nat) =~= Seq::<P>::empty());
        }
    }

    /// Registers a feed on a subscription that was just opened, under a new
    /// identifier and stamped with the current time, and returns the
    /// identifier.
    pub fn watch(
        &mut self,
        connection_id: String,
        database: String,
        collection: Option<String>,
        filter: Option<P>,
        operation_types: Option<Vec<String>>,
    ) -> (stream_id: String)
        requires
            old(self).wf(),
        ensures
            final(self).wf(),
            final(self).is_known(stream_id@),
            final(self).poll_result(stream_id@, CAPACITY as nat) == Seq::<P>::empty(),
            old(self).registered(
                final(self),
                ChangeStreamInfoView {
                    id: stream_id@,
                    connection_id: connection_id@,
                    database: database@,
                    collection: collection.deep_view(),
                    filter,
                    operation_types: match operation_types {
                        Some(kinds) => kinds.deep_view(),
                        None => Seq::empty(),
                    },
                    started_at: final(self).info_of(stream_id@).started_at,
                    is_active: true,
                },
            ),
    {
        let id = fresh_id();
        let at = now();
        self.register(
            id.clone(),
            connection_id,
            database,
            collection,
            filter,
            operation_types,
            at,
        );
        id
    }

    /// Takes in what the listener of feed `stream_id` got from the driver
    /// and tells the listener whether to go on.
    pub fn deliver(&mut self, stream_id: &str, event: FeedEvent<P>) -> (step: FeedStep)
        requires
            old(self).wf(),
        ensures
            final(self).wf(),
            old(self).delivered(final(self), stream_id@, event),
            step == old(self).delivery_step(stream_id@, event),
    {
        match self.store.find(stream_id) {
            Some(i) => {
                let ghost was = self.store.values()[i as int];
                let ghost handed = event;
                let feed = self.store.value_at_mut(i);
                let step = match event {
                    FeedEvent::Change(p) => {
                        if feed.info.is_active {
                            proof {
                                assert(old(self).buffers()[i as int] == was.events@);
                            }
                            feed.events.push(p);
                            FeedStep::Continue
                        } else {
                            FeedStep::Stop
                        }
                    },
                    FeedEvent::Unreadable => {
                        if feed.info.is_active {
                            FeedStep::Continue
                        } else {
                            FeedStep::Stop
                        }
                    },
                    _ => {
                        feed.info.is_active = false;
                        FeedStep::Stop
                    },
                };
                proof {
                    let j = i as int;
                    assert(old(self).infos()[j] == was.info@);
                    assert(old(self).buffers()[j] == was.events@);
                    match handed {
                        FeedEvent::Change(p) => {
                            assert(self.infos() =~= old(self).infos());
                            if was.info.is_active {
                                assert(self.buffers() =~= old(self).buffers().update(
                                    j,
                                    keep_last(old(self).buffers()[j].push(p), CAPACITY as nat),
                                ));
                            } else {
                                assert(self.buffers() =~= old(self).buffers());
                            }
                        },
                        FeedEvent::Unreadable => {
                            assert(self.infos() =~= old(self).infos());
                            assert(self.buffers() =~= old(self).buffers());
                        },
                        _ => {
                            assert(self.infos() =~= old(self).infos().update(
                                j,
                                ChangeStreamInfoView { is_active: false, ..old(self).infos()[j] },
                            ));
                            assert(self.buffers() =~= old(self).buffers());
                        },
                    }
                }
                step
            },
            None => FeedStep::Stop,
        }
    }

    /// Up to `limit` of the events buffered for feed `stream_id`, newest
    /// first; `DEFAULT_POLL_LIMIT` of them when no limit is given. The
    /// buffer is not changed. An identifier that names no feed gets an
    /// empty answer, so that a poll racing a stop is not an error.
    pub fn poll(&self, stream_id: &str, limit: Option<usize>) -> (r: Vec<&P>)
        requires
            self.wf(),
        ensures
            r@.len() == self.poll_result(stream_id@, poll_limit(limit)).len(),
            forall|i: int|
                0 <= i < r@.len() ==> *r@[i] == self.poll_result(stream_id@, poll_limit(limit))[i],
    {
        let n = match limit {
            Some(n) => n,
            None => DEFAULT_POLL_LIMIT,
        };
        match self.store.find(stream_id) {
            Some(i) => self.store.value_at(i).events.recent(n),
            None => Vec::new(),
        }
    }

    /// How many events are buffered for feed `stream_id`; none for an
    /// identifier that names no feed.
    pub fn buffered(&self, stream_id: &str) -> (n: usize)
        requires
            self.wf(),
        ensures
            n == match slot_of(self.ids(), stream_id@) {
                Some(i) => self.buffers()[i].len(),
                None => 0,
            },
    {
        match self.store.find(stream_id) {
            Some(i) => self.store.value_at(i).events.len(),
            None => 0,
        }
    }

    /// The metadata of the feeds, in registration order: those of one
    /// connection, or of all when none is named.
    pub fn list(&self, connection_id: Option<&str>) -> (r: Vec<&ChangeStreamInfo<P>>)
        requires
            self.wf(),
        ensures
            r@.map_values(|info: &ChangeStreamInfo<P>| info@) == owned_by(
                self.infos(),
                match connection_id {
                    Some(c) => Some(c@),
                    None => None,
                },
            ),
    {
        let ghost connection: Option<Seq<char>> = match connection_id {
            Some(c) => Some(c@),
            None => None,
        };
        let mut out: Vec<&ChangeStreamInfo<P>> = Vec::new();
        let n = self.store.len();
        let mut i: usize = 0;
        assert(self.infos().take(0) =~= Seq::empty());
        assert(out@.map_values(|info: &ChangeStreamInfo<P>| info@) =~= Seq::empty());
        while i < n
            invariant
                self.wf(),
                self.store.wf(),
                n == self.ids().len(),
                i <= n,
                connection == match connection_id {
                    Some(c) => Some(c@),
                    None => None,
                },
                out@.map_values(|info: &ChangeStreamInfo<P>| info@) == owned_by(
                    self.infos().take(i as int),
                    connection,
                ),
            decreases n - i,
        {
            let info = &self.store.value_at(i).info;
            let wanted = match connection_id {
                Some(c) => same_text(info.connection_id.as_str(), c),
                None => true,
            };
            proof {
                let k = i as int;
                assert(self.infos().take(k + 1).drop_last() =~= self.infos().take(k));
                assert(self.infos().take(k + 1).last() == info@);
                reveal(Seq::filter);
            }
            let ghost before = out@;
            if wanted {
                out.push(info);
                assert(out@.map_values(|info: &ChangeStreamInfo<P>| info@) =~= before.map_values(
                    |info: &ChangeStreamInfo<P>| info@,
                ).push(info@));
            }
            i += 1;
        }
        assert(self.infos().take(n as int) =~= self.infos());
        out
    }

    /// Empties the buffer of feed `stream_id`; whether the feed is active
    /// is not touched. Unknown identifiers are ignored.
    pub fn clear_buffer(&mut self, stream_id: &str)
        requires
            old(self).wf(),
        ensures
            final(self).wf(),
            final(self).ids() == old(self).ids(),
            final(self).infos() == old(self).infos(),
            final(self).buffers() == match slot_of(old(self).ids(), stream_id@) {
                Some(i) => old(self).buffers().update(i, Seq::empty()),
                None => old(self).buffers(),
            },
    {
        match self.store.find(stream_id) {
            Some(i) => {
                let feed = self.store.value_at_mut(i);
                feed.events.clear();
                proof {
                    assert(self.infos() =~= old(self).infos());
                    assert(self.buffers() =~= old(self).buffers().update(i as int, Seq::empty()));
                }
            },
            None => {},
        }
    }

    /// Stops feed `stream_id`: its metadata and its buffer are removed, so
    /// that the listener is told to exit at its next delivery. Unknown
    /// identifiers are ignored.
    pub fn stop(&mut self, stream_id: &str)
        requires
            old(self).wf(),
        ensures
            final(self).wf(),
            old(self).stopped(final(self), stream_id@),
            !final(self).is_known(stream_id@),
    {
        let ghost slot = slot_of(self.ids(), stream_id@);
        let _ = self.store.remove(stream_id);
        proof {
            match slot {
                Some(i) => {
                    assert(self.infos() =~= old(self).infos().remove(i));
                    assert(self.buffers() =~= old(self).buffers().remove(i));
                },
                None => {
                    assert(self.infos() =~= old(self).infos());
                    assert(self.buffers() =~= old(self).buffers());
                },
            }
        }
    }
}

/// Once a feed is stopped its identifier is no longer known: a poll
/// returns nothing, and the listener is told to exit whatever it delivers,
/// without anything being stored.
pub proof fn lemma_stopped_is_unknown<P>(
    before: ChangeFeeds<P>,
    after: ChangeFeeds<P>,
    id: Seq<char>,
    limit: nat,
    event: FeedEvent<P>,
)
    requires
        before.wf(),
        before.stopped(&after, id),
    ensures
        !after.is_known(id),
        after.poll_result(id, limit) == Seq::<P>::empty(),
        after.delivery_step(id, event) == FeedStep::Stop,
        after.delivered(&after, id, event),
{
    match slot_of(before.ids(), id) {
        Some(i) => {
            crate::keyed::lemma_remove_keeps_distinct(before.ids(), i);
        },
        None => {},
    }
}

/// An inactive feed takes in no further events, and its buffer stays
/// readable as it was.
pub proof fn lemma_inactive_takes_nothing<P>(
    before: ChangeFeeds<P>,
    after: ChangeFeeds<P>,
    id: Seq<char>,
    event: P,
    limit: nat,
)
    requires
        before.wf(),
        slot_of(before.ids(), id) matches Some(i) && !before.infos()[i].is_active,
        before.delivered(&after, id, FeedEvent::Change(event)),
    ensures
        after.ids() == before.ids(),
        after.infos() == before.infos(),
        after.buffers() == before.buffers(),
        after.poll_result(id, limit) == before.poll_result(id, limit),
        before.delivery_step(id, FeedEvent::Change(event)) == FeedStep::Stop,
{
}

/// The signal that a delivery stands for in the life of a feed; a change
/// event is none.
pub open spec fn signal_of<P>(event: FeedEvent<P>) -> Option<FeedSignal> {
    match event {
        FeedEvent::Change(_) => None,
        FeedEvent::Unreadable => None,
        FeedEvent::Ended => Some(FeedSignal::Ended),
        FeedEvent::Failed => Some(FeedSignal::Failed),
    }
}

/// A delivery follows the life cycle of feeds: a change event leaves the
/// phase of the feed it went to as it was, the end or a failure of the
/// driver's stream moves it on as `next_phase` says, and no delivery makes
/// an inactive feed active.
pub proof fn lemma_delivery_follows_phases<P>(
    before: ChangeFeeds<P>,
    after: ChangeFeeds<P>,
    id: Seq<char>,
    event: FeedEvent<P>,
)
    requires
        before.wf(),
        before.is_known(id),
        before.delivered(&after, id, event),
    ensures
        phase_of(after.info_of(id).is_active) == match signal_of(event) {
            Some(signal) => next_phase(phase_of(before.info_of(id).is_active), signal),
            None => phase_of(before.info_of(id).is_active),
        },
        !before.info_of(id).is_active ==> !after.info_of(id).is_active,
{
}

/// However many change events are delivered to an active feed, one after
/// the other, its buffer ends up holding exactly the most recent
/// `CAPACITY` of what it held and what arrived, oldest first; so a poll
/// returns the newest of these, newest first.
pub proof fn lemma_deliveries_keep_the_newest<P>(
    states: Seq<ChangeFeeds<P>>,
    id: Seq<char>,
    events: Seq<P>,
    limit: nat,
)
    requires
        states.len() == events.len() + 1,
        states[0].wf(),
        slot_of(states[0].ids(), id) matches Some(i) && states[0].infos()[i].is_active,
        forall|k: int|
            0 <= k < events.len() ==> (#[trigger] states[k]).delivered(
                &states[k + 1],
                id,
                FeedEvent::Change(events[k]),
            ),
    ensures
        states.last().wf(),
        states.last().ids() == states[0].ids(),
        states.last().infos() == states[0].infos(),
        states.last().buffers()[states[0].ids().index_of(id)] == keep_last(
            states[0].buffers()[states[0].ids().index_of(id)] + events,
            CAPACITY as nat,
        ),
        states.last().poll_result(id, limit) == newest_first(
            keep_last(
                states[0].buffers()[states[0].ids().index_of(id)] + events,
                CAPACITY as nat,
            ),
            limit,
        ),
    decreases events.len(),
{
    let i = states[0].ids().index_of(id);
    let held = states[0].buffers()[i];
    if events.len() == 0 {
        assert(held + events =~= held);
    } else {
        let n = events.len() as int;
        let earlier_states = states.drop_last();
        let earlier = events.drop_last();
        assert forall|k: int| 0 <= k < earlier.len() implies (#[trigger] earlier_states[k]).delivered(
            &earlier_states[k + 1],
            id,
            FeedEvent::Change(earlier[k]),
        ) by {
            assert(states[k].delivered(&states[k + 1], id, FeedEvent::Change(events[k])));
        }
        lemma_deliveries_keep_the_newest(earlier_states, id, earlier, limit);
        let before = states[n - 1];
        let after = states[n];
        assert(before == earlier_states.last());
        assert(before.delivered(&after, id, FeedEvent::Change(events[n - 1])));
        let was = before.buffers()[i];
        assert(after.buffers()[i] == keep_last(was.push(events[n - 1]), CAPACITY as nat));
        assert(held + events =~= (held + earlier).push(events[n - 1]));
        assert(keep_last(was.push(events[n - 1]), CAPACITY as nat) =~= keep_last(
            held + events,
            CAPACITY as nat,
        ));
        assert forall|j: int| 0 <= j < after.ids().len() implies (#[trigger] after.buffers()[j]).len()
            <= CAPACITY by {
            if j != i {
                assert(after.buffers()[j] == before.buffers()[j]);
            }
        }
    }
}

/// Events come back from a poll in reverse arrival order: after `event`
/// was delivered to an active feed, a poll that asks for at least one
/// event returns `event` first, followed by what a poll with one less
/// would have returned before, as far as the buffer still holds it.
pub proof fn lemma_delivered_is_polled_first<P>(
    before: ChangeFeeds<P>,
    after: ChangeFeeds<P>,
    id: Seq<char>,
    event: P,
    limit: nat,
)
    requires
        before.wf(),
        slot_of(before.ids(), id) matches Some(i) && before.infos()[i].is_active,
        before.delivered(&after, id, FeedEvent::Change(event)),
        1 <= limit <= CAPACITY,
    ensures
        after.poll_result(id, limit).len() >= 1,
        after.poll_result(id, limit)[0] == event,
        after.poll_result(id, limit).skip(1) == before.poll_result(id, (limit - 1) as nat),
{
    let i = before.ids().index_of(id);
    assert(after.ids() == before.ids());
    let old_buffer = before.buffers()[i];
    let new_buffer = after.buffers()[i];
    assert(new_buffer == keep_last(old_buffer.push(event), CAPACITY as nat));
    assert(after.poll_result(id, limit).skip(1) =~= before.poll_result(id, (limit - 1) as nat));
}

} // verus!
