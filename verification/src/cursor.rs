//! Cursor sessions: paging through a driver's forward-only result stream in
//! bounded batches.
//!
//! Pulling from the stream is the caller's part, since it waits on the
//! database. What a batch holds after each pull, and when it is complete,
//! is decided here.

use vstd::prelude::*;
use crate::ids::fresh_id;
use crate::keyed::{slot_of, IdMap};

verus! {

/// The batch size of a session that was started without one.
pub const DEFAULT_BATCH_SIZE: usize = 50;

/// The smallest batch size a session works with.
pub const MIN_BATCH_SIZE: usize = 1;

/// The largest batch size a session works with.
pub const MAX_BATCH_SIZE: usize = 1000;

/// `size`, brought into the range from `MIN_BATCH_SIZE` to `MAX_BATCH_SIZE`.
pub open spec fn clamped(size: nat) -> nat {
    if size < MIN_BATCH_SIZE {
        MIN_BATCH_SIZE as nat
    } else if size > MAX_BATCH_SIZE {
        MAX_BATCH_SIZE as nat
    } else {
        size
    }
}

pub fn clamp_batch_size(size: usize) -> (r: usize)
    ensures
        r == clamped(size as nat),
        MIN_BATCH_SIZE <= r <= MAX_BATCH_SIZE,
{
    if size < MIN_BATCH_SIZE {
        MIN_BATCH_SIZE
    } else if size > MAX_BATCH_SIZE {
        MAX_BATCH_SIZE
    } else {
        size
    }
}

/// Clamping leaves a batch size from `MIN_BATCH_SIZE` to `MAX_BATCH_SIZE`
/// as it is, and brings every other into that range.
pub proof fn lemma_clamped(size: nat)
    ensures
        MIN_BATCH_SIZE <= clamped(size) <= MAX_BATCH_SIZE,
        MIN_BATCH_SIZE <= size <= MAX_BATCH_SIZE ==> clamped(size) == size,
        size < MIN_BATCH_SIZE ==> clamped(size) == MIN_BATCH_SIZE,
        size > MAX_BATCH_SIZE ==> clamped(size) == MAX_BATCH_SIZE,
{
}

/// What one pull on a result stream brought.
pub enum Pulled<T> {
    /// The next document.
    Item(T),
    /// The next document could not be decoded; the stream has moved past it.
    Failed,
    /// The stream has no more documents.
    Exhausted,
}

/// A batch that is being filled.
pub struct Batch<T> {
    items: Vec<T>,
    pulls: usize,
    limit: usize,
    exhausted: bool,
}

pub ghost struct BatchState<T> {
    /// The documents collected so far, in stream order.
    pub items: Seq<T>,
    /// How many documents, decodable or not, were pulled for this batch.
    pub pulls: nat,
    /// How many pulls the batch may make.
    pub limit: nat,
    /// Whether the stream reported its end.
    pub exhausted: bool,
}

impl<T> BatchState<T> {
    /// A batch that has pulled nothing yet.
    pub open spec fn start(limit: nat) -> BatchState<T> {
        BatchState { items: Seq::empty(), pulls: 0, limit, exhausted: false }
    }

    /// Whether the batch still asks for a pull.
    pub open spec fn wants_pull(self) -> bool {
        !self.exhausted && self.pulls < self.limit
    }

    /// The batch after `pulled` was handed to it. A batch that asks for no
    /// pull stays as it is.
    pub open spec fn step(self, pulled: Pulled<T>) -> BatchState<T> {
        if !self.wants_pull() {
            self
        } else {
            match pulled {
                Pulled::Item(x) => BatchState {
                    items: self.items.push(x),
                    pulls: self.pulls + 1,
                    ..self
                },
                Pulled::Failed => BatchState { pulls: self.pulls + 1, ..self },
                Pulled::Exhausted => BatchState { exhausted: true, ..self },
            }
        }
    }

    /// No batch holds more documents than it pulled, nor pulls more often
    /// than its limit.
    pub open spec fn wf(self) -> bool {
        self.items.len() <= self.pulls <= self.limit
    }
}

impl<T> View for Batch<T> {
    type V = BatchState<T>;

    closed spec fn view(&self) -> BatchState<T> {
        BatchState {
            items: self.items@,
            pulls: self.pulls as nat,
            limit: self.limit as nat,
            exhausted: self.exhausted,
        }
    }
}

impl<T> Batch<T> {
    /// An empty batch that will pull at most `clamped(batch_size)` times.
    pub fn begin(batch_size: usize) -> (b: Self)
        ensures
            b@ == BatchState::<T>::start(clamped(batch_size as nat)),
            b@.wf(),
    {
        Batch { items: Vec::new(), pulls: 0, limit: clamp_batch_size(batch_size), exhausted: false }
    }

    /// Whether the caller is to pull once more from the stream.
    pub fn needs_pull(&self) -> (r: bool)
        ensures
            r == self@.wants_pull(),
    {
        !self.exhausted && self.pulls < self.limit
    }

    /// Takes in the outcome of one pull: a document joins the batch, a
    /// document that failed to decode is passed over, and the end of the
    /// stream completes the batch.
    pub fn accept(&mut self, pulled: Pulled<T>)
        ensures
            final(self)@ == old(self)@.step(pulled),
            old(self)@.wf() ==> final(self)@.wf(),
    {
        if !self.exhausted && self.pulls < self.limit {
            match pulled {
                Pulled::Item(x) => {
                    self.items.push(x);
                    self.pulls = self.pulls + 1;
                },
                Pulled::Failed => {
                    self.pulls = self.pulls + 1;
                },
                Pulled::Exhausted => {
                    self.exhausted = true;
                },
            }
        }
    }

    /// How many documents the batch holds so far.
    pub fn len(&self) -> (n: usize)
        ensures
            n == self@.items.len(),
    {
        self.items.len()
    }

    /// The documents of the batch, in stream order.
    pub fn finish(self) -> (items: Vec<T>)
        ensures
            items@ == self@.items,
    {
        self.items
    }
}

/// A result stream, as far as a batch can tell: the documents it will still
/// yield, in order, where `None` stands for one that fails to decode.
/// Once all are pulled, the stream reports its end.
pub type Stream<T> = Seq<Option<T>>;

/// What the next pull on `stream` brings.
pub open spec fn next_pull<T>(stream: Stream<T>) -> Pulled<T> {
    if stream.len() == 0 {
        Pulled::Exhausted
    } else {
        match stream[0] {
            Some(x) => Pulled::Item(x),
            None => Pulled::Failed,
        }
    }
}

/// The batch and the stream after the batch was filled from the stream:
/// pull, hand over, and again, for as long as the batch asks.
pub open spec fn filled<T>(batch: BatchState<T>, stream: Stream<T>) -> (BatchState<T>, Stream<T>)
    decreases stream.len(),
{
    if !batch.wants_pull() {
        (batch, stream)
    } else if stream.len() == 0 {
        (batch.step(Pulled::Exhausted), stream)
    } else {
        filled(batch.step(next_pull(stream)), stream.skip(1))
    }
}

/// The documents among `outcomes` that decoded, in order.
pub open spec fn delivered<T>(outcomes: Stream<T>) -> Seq<T>
    decreases outcomes.len(),
{
    if outcomes.len() == 0 {
        Seq::empty()
    } else {
        match outcomes.last() {
            Some(x) => delivered(outcomes.drop_last()).push(x),
            None => delivered(outcomes.drop_last()),
        }
    }
}

/// How far into a stream of `len` outcomes a fetch with `limit` pulls reads.
pub open spec fn reach(len: nat, limit: nat) -> nat {
    if limit < len {
        limit
    } else {
        len
    }
}

/// The batch that one fetch with `limit` pulls returns from `stream`.
pub open spec fn fetched<T>(stream: Stream<T>, limit: nat) -> Seq<T> {
    delivered(stream.take(reach(stream.len(), limit) as int))
}

/// What one fetch with `limit` pulls leaves of `stream`.
pub open spec fn unread<T>(stream: Stream<T>, limit: nat) -> Stream<T> {
    stream.skip(reach(stream.len(), limit) as int)
}

/// What `count` fetches in a row leave of `stream`.
pub open spec fn unread_after<T>(stream: Stream<T>, limit: nat, count: nat) -> Stream<T>
    decreases count,
{
    if count == 0 {
        stream
    } else {
        unread(unread_after(stream, limit, (count - 1) as nat), limit)
    }
}

/// The stream of a result set in which every document decodes.
pub open spec fn sound_stream<T>(documents: Seq<T>) -> Stream<T> {
    Seq::new(documents.len(), |i: int| Some(documents[i]))
}

pub proof fn lemma_delivered_concat<T>(a: Stream<T>, b: Stream<T>)
    ensures
        delivered(a + b) == delivered(a) + delivered(b),
    decreases b.len(),
{
    if b.len() == 0 {
        assert(a + b =~= a);
        assert(delivered(a) + delivered(b) =~= delivered(a));
    } else {
        lemma_delivered_concat(a, b.drop_last());
        assert((a + b).drop_last() =~= a + b.drop_last());
        assert((a + b).last() == b.last());
        match b.last() {
            Some(x) => {
                assert(delivered(a + b) =~= delivered(a) + delivered(b));
            },
            None => {},
        }
    }
}

/// A fetch never returns more documents than it may pull.
pub proof fn lemma_delivered_len<T>(outcomes: Stream<T>)
    ensures
        delivered(outcomes).len() <= outcomes.len(),
    decreases outcomes.len(),
{
    if outcomes.len() > 0 {
        lemma_delivered_len(outcomes.drop_last());
    }
}

/// Filling a batch from a stream collects exactly what a fetch returns and
/// leaves exactly what a fetch leaves.
pub proof fn lemma_filled<T>(batch: BatchState<T>, stream: Stream<T>)
    requires
        batch.wf(),
        !batch.exhausted,
    ensures
        filled(batch, stream).0.items == batch.items + fetched(
            stream,
            (batch.limit - batch.pulls) as nat,
        ),
        filled(batch, stream).1 == unread(stream, (batch.limit - batch.pulls) as nat),
        !filled(batch, stream).0.wants_pull(),
        filled(batch, stream).0.wf(),
    decreases stream.len(),
{
    let room = (batch.limit - batch.pulls) as nat;
    if !batch.wants_pull() {
        assert(stream.take(0) =~= Seq::empty());
        assert(batch.items + fetched(stream, room) =~= batch.items);
        assert(stream.skip(0) =~= stream);
    } else if stream.len() == 0 {
        assert(stream.take(0) =~= Seq::empty());
        assert(batch.items + fetched(stream, room) =~= batch.items);
        assert(stream.skip(0) =~= stream);
    } else {
        let next = batch.step(next_pull(stream));
        let rest = stream.skip(1);
        lemma_filled(next, rest);
        let r = reach(stream.len(), room) as int;
        let head = stream.take(1);
        assert(stream.take(r) =~= head + rest.take(r - 1));
        lemma_delivered_concat(head, rest.take(r - 1));
        assert(head.drop_last() =~= Seq::empty());
        assert(delivered(head.drop_last()) =~= Seq::empty());
        match stream[0] {
            Some(x) => {
                assert(delivered(head) =~= seq![x]);
                assert(next.items + fetched(rest, (room - 1) as nat) =~= batch.items + fetched(
                    stream,
                    room,
                ));
            },
            None => {
                assert(delivered(head) =~= Seq::empty());
                assert(next.items + fetched(rest, (room - 1) as nat) =~= batch.items + fetched(
                    stream,
                    room,
                ));
            },
        }
        assert(rest.skip(r - 1) =~= stream.skip(r));
    }
}

/// Whatever a batch is handed, it never holds more documents than its
/// limit allows.
pub proof fn lemma_step_within_limit<T>(batch: BatchState<T>, pulled: Pulled<T>)
    requires
        batch.wf(),
    ensures
        batch.step(pulled).wf(),
        batch.step(pulled).items.len() <= batch.limit,
        batch.step(pulled).limit == batch.limit,
{
}

/// One fetch, from a fresh batch: it returns at most `limit` documents,
/// namely those that decode among the next `limit` of the stream, and moves
/// the stream past exactly those.
pub proof fn lemma_fetch<T>(stream: Stream<T>, limit: nat)
    ensures
        filled(BatchState::<T>::start(limit), stream).0.items == fetched(stream, limit),
        filled(BatchState::<T>::start(limit), stream).1 == unread(stream, limit),
        fetched(stream, limit).len() <= limit,
{
    lemma_filled(BatchState::<T>::start(limit), stream);
    lemma_delivered_len(stream.take(reach(stream.len(), limit) as int));
    assert(Seq::<T>::empty() + fetched(stream, limit) =~= fetched(stream, limit));
}

/// In a stream where every document decodes, what decodes is every document.
pub proof fn lemma_delivered_sound<T>(documents: Seq<T>)
    ensures
        delivered(sound_stream(documents)) == documents,
    decreases documents.len(),
{
    if documents.len() == 0 {
        assert(delivered(sound_stream(documents)) =~= documents);
    } else {
        lemma_delivered_sound(documents.drop_last());
        assert(sound_stream(documents).drop_last() =~= sound_stream(documents.drop_last()));
        assert(delivered(sound_stream(documents)) =~= documents);
    }
}

/// The position in a result set of `len` documents that `count` fetches of
/// `limit` pulls have reached.
pub open spec fn position_after(len: nat, limit: nat, count: nat) -> nat {
    if count * limit < len {
        count * limit
    } else {
        len
    }
}

/// Repeated fetches drain a result set once: with nothing failing to
/// decode, the fetch that follows `count` earlier ones returns the
/// documents from where those stopped, `limit` of them or as many as are
/// left. So no document is returned twice or passed over; a fetch returns
/// fewer than `limit` exactly when it reaches the end of the set; and
/// every fetch after the set is used up returns nothing.
pub proof fn lemma_drain<T>(documents: Seq<T>, limit: nat, count: nat)
    requires
        limit >= 1,
    ensures
        unread_after(sound_stream(documents), limit, count) == sound_stream(
            documents.skip(position_after(documents.len(), limit, count) as int),
        ),
        fetched(unread_after(sound_stream(documents), limit, count), limit)
            == documents.subrange(
            position_after(documents.len(), limit, count) as int,
            position_after(documents.len(), limit, count + 1) as int,
        ),
        position_after(documents.len(), limit, count) <= position_after(
            documents.len(),
            limit,
            count + 1,
        ) <= documents.len(),
        fetched(unread_after(sound_stream(documents), limit, count), limit).len() <= limit,
        fetched(unread_after(sound_stream(documents), limit, count), limit).len() < limit
            <==> (count + 1) * limit > documents.len(),
        count * limit >= documents.len() ==> fetched(
            unread_after(sound_stream(documents), limit, count),
            limit,
        ).len() == 0,
    decreases count,
{
    let n = documents.len();
    let here = position_after(n, limit, count);
    let there = position_after(n, limit, count + 1);
    assert((count + 1) * limit == count * limit + limit) by (nonlinear_arith);
    assert(count * limit >= 0) by (nonlinear_arith)
        requires
            count >= 0,
            limit >= 0,
    ;
    if count == 0 {
        assert(documents.skip(0) =~= documents);
    } else {
        lemma_drain(documents, limit, (count - 1) as nat);
        let before = position_after(n, limit, (count - 1) as nat);
        assert(((count - 1) + 1) * limit == (count - 1) * limit + limit) by (nonlinear_arith);
        let prev = sound_stream(documents.skip(before as int));
        assert(unread(prev, limit) =~= sound_stream(documents.skip(here as int)));
    }
    let cur = sound_stream(documents.skip(here as int));
    let r = reach(cur.len(), limit);
    assert(here + r == there);
    assert(cur.take(r as int) =~= sound_stream(documents.subrange(here as int, there as int)));
    lemma_delivered_sound(documents.subrange(here as int, there as int));
}

/// A driver result stream together with the batch size it is read with.
pub struct CursorSession<S> {
    /// The driver's stream. One fetch reads from it at a time.
    pub cursor: S,
    pub batch_size: usize,
}

impl<S> CursorSession<S> {
    /// A session over `cursor`; without a batch size it reads
    /// `DEFAULT_BATCH_SIZE` documents at a time.
    pub fn new(cursor: S, batch_size: Option<usize>) -> (s: Self)
        ensures
            s.cursor == cursor,
            s.batch_size == match batch_size {
                Some(size) => clamped(size as nat),
                None => DEFAULT_BATCH_SIZE as nat,
            },
    {
        let size = match batch_size {
            Some(size) => clamp_batch_size(size),
            None => DEFAULT_BATCH_SIZE,
        };
        CursorSession { cursor, batch_size: size }
    }

    /// Sets the batch size; a size out of range is clamped, not refused.
    pub fn set_batch_size(&mut self, size: usize)
        ensures
            final(self).batch_size == clamped(size as nat),
            final(self).cursor == old(self).cursor,
    {
        self.batch_size = clamp_batch_size(size);
    }

    /// Begins the next batch: empty, and asking for at most as many pulls
    /// as the session's batch size, clamped, allows.
    pub fn next_batch<T>(&self) -> (b: Batch<T>)
        ensures
            b@ == BatchState::<T>::start(clamped(self.batch_size as nat)),
            b@.wf(),
    {
        Batch::begin(self.batch_size)
    }
}

#[derive(Clone, Copy, Debug, PartialEq, Eq, Structural)]
pub enum SessionError {
    /// No session carries the identifier.
    SessionNotFound,
}

impl SessionError {
    /// The failure in words.
    pub fn message(&self) -> (m: &'static str)
        ensures
            m@ == "Invalid session ID"@,
    {
        "Invalid session ID"
    }
}

/// The cursor sessions that are open, by session identifier.
pub struct SessionManager<S> {
    store: IdMap<CursorSession<S>>,
}

impl<S> SessionManager<S> {
    /// The identifiers of the open sessions, in the order they were started.
    pub closed spec fn ids(&self) -> Seq<Seq<char>> {
        self.store.keys()
    }

    /// The open sessions, in the order of `ids`.
    pub closed spec fn sessions(&self) -> Seq<CursorSession<S>> {
        self.store.values()
    }

    /// Each identifier names exactly one session.
    pub open spec fn wf(&self) -> bool {
        &&& self.ids().len() == self.sessions().len()
        &&& self.ids().no_duplicates()
    }

    pub open spec fn is_open(&self, id: Seq<char>) -> bool {
        self.ids().contains(id)
    }

    /// The session that `id` names, or the failure a fetch on `id` ends in.
    pub open spec fn lookup(&self, id: Seq<char>) -> Result<CursorSession<S>, SessionError> {
        match slot_of(self.ids(), id) {
            Some(i) => Ok(self.sessions()[i]),
            None => Err(SessionError::SessionNotFound),
        }
    }

    /// `after` is this manager once `session` was stored under `id`.
    pub open spec fn started(&self, after: &Self, id: Seq<char>, session: CursorSession<S>) -> bool {
        match slot_of(self.ids(), id) {
            Some(i) => {
                &&& after.ids() == self.ids()
                &&& after.sessions() == self.sessions().update(i, session)
            },
            None => {
                &&& after.ids() == self.ids().push(id)
                &&& after.sessions() == self.sessions().push(session)
            },
        }
    }

    /// `after` is this manager once session `id` was cancelled.
    pub open spec fn cancelled(&self, after: &Self, id: Seq<char>) -> bool {
        match slot_of(self.ids(), id) {
            Some(i) => {
                &&& after.ids() == self.ids().remove(i)
                &&& after.sessions() == self.sessions().remove(i)
            },
            None => {
                &&& after.ids() == self.ids()
                &&& after.sessions() == self.sessions()
            },
        }
    }

    pub fn new() -> (m: Self)
        ensures
            m.wf(),
            m.ids() == Seq::<Seq<char>>::empty(),
    {
        SessionManager { store: IdMap::new() }
    }

    pub fn len(&self) -> (n: usize)
        requires
            self.wf(),
        ensures
            n == self.ids().len(),
    {
        self.store.len()
    }

    /// Stores `session` under `id`, in place of an earlier session with
    /// that identifier if there is one.
    pub fn insert(&mut self, id: String, session: CursorSession<S>)
        requires
            old(self).wf(),
        ensures
            final(self).wf(),
            old(self).started(final(self), id@, session),
            final(self).lookup(id@) == Ok::<CursorSession<S>, SessionError>(session),
    {
        self.store.insert(id, session);
        proof {
            lemma_started_is_found(*old(self), *self, id@, session);
        }
    }

    /// Takes over a result stream, positioned after the query ran, and
    /// returns the identifier of the new session.
    pub fn start(&mut self, cursor: S, batch_size: Option<usize>) -> (id: String)
        requires
            old(self).wf(),
        ensures
            final(self).wf(),
            final(self).lookup(id@) is Ok,
            final(self).lookup(id@)->Ok_0.cursor == cursor,
            final(self).lookup(id@)->Ok_0.batch_size == match batch_size {
                Some(size) => clamped(size as nat),
                None => DEFAULT_BATCH_SIZE as nat,
            },
            old(self).started(final(self), id@, final(self).lookup(id@)->Ok_0),
    {
        let id = fresh_id();
        self.insert(id.clone(), CursorSession::new(cursor, batch_size));
        id
    }

    /// The session that `id` names.
    pub fn session(&self, id: &str) -> (r: Result<&CursorSession<S>, SessionError>)
        requires
            self.wf(),
        ensures
            match r {
                Ok(s) => self.lookup(id@) == Ok::<CursorSession<S>, SessionError>(*s),
                Err(e) => self.lookup(id@) == Err::<CursorSession<S>, SessionError>(e),
            },
    {
        match self.store.find(id) {
            Some(i) => Ok(self.store.value_at(i)),
            None => Err(SessionError::SessionNotFound),
        }
    }

    /// Opens a fetch on session `id`: the stream to pull from and the empty
    /// batch to fill, which stops at the session's batch size. An unknown
    /// identifier fails with `SessionNotFound`.
    pub fn fetch_next<T>(&self, id: &str) -> (r: Result<(&S, Batch<T>), SessionError>)
        requires
            self.wf(),
        ensures
            match r {
                Ok((cursor, batch)) => {
                    &&& self.lookup(id@) is Ok
                    &&& *cursor == self.lookup(id@)->Ok_0.cursor
                    &&& batch@ == BatchState::<T>::start(
                        clamped(self.lookup(id@)->Ok_0.batch_size as nat),
                    )
                    &&& batch@.wf()
                },
                Err(e) => self.lookup(id@) == Err::<CursorSession<S>, SessionError>(e),
            },
    {
        match self.session(id) {
            Ok(s) => Ok((&s.cursor, s.next_batch())),
            Err(e) => Err(e),
        }
    }

    /// Changes the batch size of session `id`, clamped into range.
    pub fn set_batch_size(&mut self, id: &str, size: usize) -> (r: Result<(), SessionError>)
        requires
            old(self).wf(),
        ensures
            final(self).wf(),
            final(self).ids() == old(self).ids(),
            match slot_of(old(self).ids(), id@) {
                Some(i) => {
                    &&& r.is_ok()
                    &&& final(self).sessions() == old(self).sessions().update(
                        i,
                        CursorSession {
                            cursor: old(self).sessions()[i].cursor,
                            batch_size: clamped(size as nat) as usize,
                        },
                    )
                },
                None => {
                    &&& r == Err::<(), SessionError>(SessionError::SessionNotFound)
                    &&& final(self).sessions() == old(self).sessions()
                },
            },
    {
        match self.store.find(id) {
            Some(i) => {
                let s = self.store.value_at_mut(i);
                s.set_batch_size(size);
                Ok(())
            },
            None => Err(SessionError::SessionNotFound),
        }
    }

    /// Drops session `id` and its stream. Unknown identifiers are ignored.
    pub fn cancel(&mut self, id: &str)
        requires
            old(self).wf(),
        ensures
            final(self).wf(),
            old(self).cancelled(final(self), id@),
            final(self).lookup(id@) == Err::<CursorSession<S>, SessionError>(
                SessionError::SessionNotFound,
            ),
    {
        let _ = self.store.remove(id);
    }
}

/// A session that was just stored is found under its identifier.
pub proof fn lemma_started_is_found<S>(
    before: SessionManager<S>,
    after: SessionManager<S>,
    id: Seq<char>,
    session: CursorSession<S>,
)
    requires
        before.wf(),
        after.wf(),
        before.started(&after, id, session),
    ensures
        after.lookup(id) == Ok::<CursorSession<S>, SessionError>(session),
{
    match slot_of(before.ids(), id) {
        Some(i) => {
            assert(after.ids()[i] == id);
        },
        None => {
            let n = before.ids().len() as int;
            assert(after.ids()[n] == id);
            assert(after.ids().contains(id));
            assert(after.ids()[after.ids().index_of(id)] == id);
        },
    }
}

/// After a cancel, a fetch on the same identifier fails with
/// `SessionNotFound`, and a second cancel changes nothing.
pub proof fn lemma_cancelled_is_not_found<S>(
    before: SessionManager<S>,
    after: SessionManager<S>,
    id: Seq<char>,
)
    requires
        before.wf(),
        before.cancelled(&after, id),
    ensures
        !after.is_open(id),
        after.lookup(id) == Err::<CursorSession<S>, SessionError>(SessionError::SessionNotFound),
        after.cancelled(&after, id),
{
    match slot_of(before.ids(), id) {
        Some(i) => {
            crate::keyed::lemma_remove_keeps_distinct(before.ids(), i);
        },
        None => {},
    }
}

} // verus!
