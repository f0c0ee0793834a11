//! The query history: a bounded, append-only record of the find and
//! aggregate operations that were dispatched, newest last.

use vstd::prelude::*;
use crate::bounded::{keep_last, BoundedLog, CAPACITY};
use crate::clock::{now, Timestamp};
use crate::ids::fresh_id;
use crate::text::same_text;

verus! {

/// How many entries `query` returns when the caller names no limit.
pub const DEFAULT_QUERY_LIMIT: usize = 100;

/// The parameters of a logged operation.
pub enum QueryRecord<P> {
    Find { filter: P, sort: Option<P>, limit: Option<u64>, skip: Option<u64>, projection: Option<P> },
    Aggregate { pipeline: Vec<P> },
}

/// One logged operation. Entries are never changed once recorded.
pub struct QueryHistoryEntry<P> {
    pub id: String,
    pub connection_id: String,
    pub database: String,
    pub collection: String,
    pub query: QueryRecord<P>,
    pub executed_at: Timestamp,
    pub execution_time_ms: Option<u64>,
}

impl<P> QueryHistoryEntry<P> {
    /// The kind of the logged operation: `find` or `aggregate`.
    pub fn query_type(&self) -> (kind: &'static str)
        ensures
            kind@ == match self.query {
                QueryRecord::Find { .. } => "find"@,
                QueryRecord::Aggregate { .. } => "aggregate"@,
            },
    {
        match self.query {
            QueryRecord::Find { .. } => "find",
            QueryRecord::Aggregate { .. } => "aggregate",
        }
    }
}

/// The entries of `entries` that were run on `connection`, in order; all
/// of them when no connection is named.
pub open spec fn of_connection<P>(
    entries: Seq<QueryHistoryEntry<P>>,
    connection: Option<Seq<char>>,
) -> Seq<QueryHistoryEntry<P>> {
    entries.filter(
        |e: QueryHistoryEntry<P>|
            match connection {
                Some(c) => e.connection_id@ == c,
                None => true,
            },
    )
}

/// Where no connection is named, every entry is selected.
pub proof fn lemma_of_any_connection<P>(entries: Seq<QueryHistoryEntry<P>>)
    ensures
        of_connection(entries, None) == entries,
    decreases entries.len(),
{
    reveal(Seq::filter);
    if entries.len() > 0 {
        lemma_of_any_connection(entries.drop_last());
        assert(entries.drop_last().push(entries.last()) =~= entries);
    }
}

/// The entries of `entries` whose identifier is not `id`, in order.
pub open spec fn without_id<P>(entries: Seq<QueryHistoryEntry<P>>, id: Seq<char>) -> Seq<
    QueryHistoryEntry<P>,
> {
    entries.filter(|e: QueryHistoryEntry<P>| e.id@ != id)
}

/// The entries of `entries` that were executed at `at`, in order.
pub open spec fn executed_at<P>(entries: Seq<QueryHistoryEntry<P>>, at: Timestamp) -> Seq<
    QueryHistoryEntry<P>,
> {
    entries.filter(|e: QueryHistoryEntry<P>| e.executed_at == at)
}

/// Whether no entry of `entries` was executed before the entry after it.
pub open spec fn newest_first_ordered<P>(entries: Seq<QueryHistoryEntry<P>>) -> bool {
    forall|i: int, j: int|
        0 <= i < j < entries.len() ==> !(#[trigger] entries[j]).executed_at.later_than(
            (#[trigger] entries[i]).executed_at,
        )
}

/// `sorted` with `e` put behind every entry that is not older than `e`.
pub open spec fn placed<P>(sorted: Seq<QueryHistoryEntry<P>>, e: QueryHistoryEntry<P>) -> Seq<
    QueryHistoryEntry<P>,
>
    decreases sorted.len(),
{
    if sorted.len() == 0 {
        seq![e]
    } else if e.executed_at.later_than(sorted.last().executed_at) {
        placed(sorted.drop_last(), e).push(sorted.last())
    } else {
        sorted.push(e)
    }
}

/// `entries` from the most recently executed to the oldest; entries
/// executed at the same instant keep the order they have in `entries`.
pub open spec fn by_recency<P>(entries: Seq<QueryHistoryEntry<P>>) -> Seq<QueryHistoryEntry<P>>
    decreases entries.len(),
{
    if entries.len() == 0 {
        entries
    } else {
        placed(by_recency(entries.drop_last()), entries.last())
    }
}

/// The limit a query works with.
pub open spec fn query_limit(limit: Option<usize>) -> nat {
    match limit {
        Some(n) => n as nat,
        None => DEFAULT_QUERY_LIMIT as nat,
    }
}

/// What `query` returns: the entries of the connection, newest first, cut
/// off after `limit`.
pub open spec fn query_result<P>(
    entries: Seq<QueryHistoryEntry<P>>,
    connection: Option<Seq<char>>,
    limit: nat,
) -> Seq<QueryHistoryEntry<P>> {
    let ordered = by_recency(of_connection(entries, connection));
    if limit < ordered.len() {
        ordered.take(limit as int)
    } else {
        ordered
    }
}

/// Where `placed` puts an entry: at index `k`, when all entries from `k`
/// on are older than it and the entry before `k`, if any, is not.
pub proof fn lemma_placed_at<P>(sorted: Seq<QueryHistoryEntry<P>>, e: QueryHistoryEntry<P>, k: int)
    requires
        0 <= k <= sorted.len(),
        forall|j: int| k <= j < sorted.len() ==> e.executed_at.later_than(sorted[j].executed_at),
        k > 0 ==> !e.executed_at.later_than(sorted[k - 1].executed_at),
    ensures
        placed(sorted, e) == sorted.insert(k, e),
    decreases sorted.len(),
{
    if sorted.len() == 0 {
        assert(placed(sorted, e) =~= sorted.insert(k, e));
    } else if k == sorted.len() {
        assert(placed(sorted, e) =~= sorted.insert(k, e));
    } else {
        lemma_placed_at(sorted.drop_last(), e, k);
        assert(sorted.drop_last().insert(k, e).push(sorted.last()) =~= sorted.insert(k, e));
    }
}

/// Placing an entry into a sequence that is ordered newest first keeps it
/// ordered, adds just that entry, and puts it behind the entries executed
/// at the same instant.
pub proof fn lemma_placed<P>(sorted: Seq<QueryHistoryEntry<P>>, e: QueryHistoryEntry<P>)
    requires
        newest_first_ordered(sorted),
    ensures
        newest_first_ordered(placed(sorted, e)),
        placed(sorted, e).len() == sorted.len() + 1,
        placed(sorted, e).to_multiset() == sorted.to_multiset().insert(e),
        forall|at: Timestamp|
            executed_at(placed(sorted, e), at) == if e.executed_at == at {
                executed_at(sorted, at).push(e)
            } else {
                executed_at(sorted, at)
            },
    decreases sorted.len(),
{
    broadcast use vstd::seq_lib::group_to_multiset_ensures;

    let out = placed(sorted, e);
    if sorted.len() == 0 {
        assert forall|at: Timestamp|
            executed_at(out, at) == if e.executed_at == at {
                executed_at(sorted, at).push(e)
            } else {
                executed_at(sorted, at)
            } by {
            lemma_executed_at_push(sorted, e, at);
            assert(out =~= sorted.push(e));
        }
        assert(out =~= sorted.push(e));
    } else if e.executed_at.later_than(sorted.last().executed_at) {
        let front = sorted.drop_last();
        let last = sorted.last();
        assert forall|i: int, j: int| 0 <= i < j < front.len() implies !(#[trigger] front[j]).executed_at.later_than(
            (#[trigger] front[i]).executed_at,
        ) by {
            assert(front[i] == sorted[i] && front[j] == sorted[j]);
        }
        lemma_placed(front, e);
        let inner = placed(front, e);
        assert(out == inner.push(last));
        assert(sorted =~= front.push(last));
        assert forall|i: int, j: int| 0 <= i < j < out.len() implies !(#[trigger] out[j]).executed_at.later_than(
            (#[trigger] out[i]).executed_at,
        ) by {
            if j < inner.len() {
                assert(out[i] == inner[i] && out[j] == inner[j]);
            } else {
                assert(out[j] == last);
                assert(out[i] == inner[i]);
                assert(inner.to_multiset().count(inner[i]) > 0);
                if inner[i] == e {
                } else {
                    assert(front.to_multiset().count(inner[i]) > 0);
                    assert(front.contains(inner[i]));
                    let w = choose|w: int| 0 <= w < front.len() && front[w] == inner[i];
                    assert(sorted[w] == inner[i]);
                    assert(!sorted[sorted.len() - 1].executed_at.later_than(sorted[w].executed_at));
                }
            }
        }
        assert forall|at: Timestamp|
            executed_at(out, at) == if e.executed_at == at {
                executed_at(sorted, at).push(e)
            } else {
                executed_at(sorted, at)
            } by {
            lemma_executed_at_push(inner, last, at);
            lemma_executed_at_push(front, last, at);
        }
    } else {
        assert(out == sorted.push(e));
        assert forall|i: int, j: int| 0 <= i < j < out.len() implies !(#[trigger] out[j]).executed_at.later_than(
            (#[trigger] out[i]).executed_at,
        ) by {
            if j < sorted.len() {
                assert(out[i] == sorted[i] && out[j] == sorted[j]);
            } else {
                assert(out[i] == sorted[i]);
                if i < sorted.len() - 1 {
                    assert(!sorted[sorted.len() - 1].executed_at.later_than(sorted[i].executed_at));
                }
            }
        }
        assert forall|at: Timestamp|
            executed_at(out, at) == if e.executed_at == at {
                executed_at(sorted, at).push(e)
            } else {
                executed_at(sorted, at)
            } by {
            lemma_executed_at_push(sorted, e, at);
        }
    }
}

/// Selecting by instant goes entry by entry.
pub proof fn lemma_executed_at_push<P>(
    entries: Seq<QueryHistoryEntry<P>>,
    e: QueryHistoryEntry<P>,
    at: Timestamp,
)
    ensures
        executed_at(entries.push(e), at) == if e.executed_at == at {
            executed_at(entries, at).push(e)
        } else {
            executed_at(entries, at)
        },
{
    reveal(Seq::filter);
    assert(entries.push(e).drop_last() =~= entries);
}

/// Ordering by recency rearranges and nothing more: the result runs from
/// the newest entry to the oldest, holds the same entries as often as the
/// input does, and keeps entries of one instant in their input order.
pub proof fn lemma_by_recency<P>(entries: Seq<QueryHistoryEntry<P>>)
    ensures
        newest_first_ordered(by_recency(entries)),
        by_recency(entries).len() == entries.len(),
        by_recency(entries).to_multiset() == entries.to_multiset(),
        forall|at: Timestamp| executed_at(by_recency(entries), at) == executed_at(entries, at),
    decreases entries.len(),
{
    broadcast use vstd::seq_lib::group_to_multiset_ensures;

    if entries.len() == 0 {
    } else {
        let front = entries.drop_last();
        lemma_by_recency(front);
        lemma_placed(by_recency(front), entries.last());
        assert(entries =~= front.push(entries.last()));
        assert forall|at: Timestamp|
            executed_at(by_recency(entries), at) == executed_at(entries, at) by {
            lemma_executed_at_push(front, entries.last(), at);
        }
    }
}

/// The operations logged so far, oldest first.
pub struct QueryHistory<P> {
    log: BoundedLog<QueryHistoryEntry<P>>,
}

impl<P> View for QueryHistory<P> {
    type V = Seq<QueryHistoryEntry<P>>;

    closed spec fn view(&self) -> Seq<QueryHistoryEntry<P>> {
        self.log@
    }
}

impl<P> QueryHistory<P> {
    /// The log never holds more than `CAPACITY` entries.
    pub open spec fn wf(&self) -> bool {
        self@.len() <= CAPACITY
    }

    pub fn new() -> (h: Self)
        ensures
            h.wf(),
            h@ == Seq::<QueryHistoryEntry<P>>::empty(),
    {
        QueryHistory { log: BoundedLog::new() }
    }

    pub fn len(&self) -> (n: usize)
        ensures
            n == self@.len(),
    {
        self.log.len()
    }

    /// Appends `entry`; a full log first loses its oldest entry.
    pub fn record(&mut self, entry: QueryHistoryEntry<P>)
        requires
            old(self).wf(),
        ensures
            final(self).wf(),
            final(self)@ == keep_last(old(self)@.push(entry), CAPACITY as nat),
    {
        self.log.push(entry);
    }

    /// Logs a find that was dispatched just now on `connection_id`, under a
    /// new entry identifier, and returns that identifier.
    pub fn record_find(
        &mut self,
        connection_id: String,
        database: String,
        collection: String,
        filter: P,
        sort: Option<P>,
        limit: Option<u64>,
        skip: Option<u64>,
        projection: Option<P>,
        execution_time_ms: u64,
    ) -> (id: String)
        requires
            old(self).wf(),
        ensures
            final(self).wf(),
            final(self)@.len() >= 1,
            final(self)@ == keep_last(old(self)@.push(final(self)@.last()), CAPACITY as nat),
            final(self)@.last().id@ == id@,
            final(self)@.last().connection_id@ == connection_id@,
            final(self)@.last().database@ == database@,
            final(self)@.last().collection@ == collection@,
            final(self)@.last().query == (QueryRecord::Find {
                filter,
                sort,
                limit,
                skip,
                projection,
            }),
            final(self)@.last().execution_time_ms == Some(execution_time_ms),
    {
        let id = fresh_id();
        let entry = QueryHistoryEntry {
            id: id.clone(),
            connection_id,
            database,
            collection,
            query: QueryRecord::Find { filter, sort, limit, skip, projection },
            executed_at: now(),
            execution_time_ms: Some(execution_time_ms),
        };
        self.record(entry);
        id
    }

    /// Logs an aggregation that was dispatched just now on
    /// `connection_id`, under a new entry identifier, and returns that
    /// identifier.
    pub fn record_aggregate(
        &mut self,
        connection_id: String,
        database: String,
        collection: String,
        pipeline: Vec<P>,
        execution_time_ms: u64,
    ) -> (id: String)
        requires
            old(self).wf(),
        ensures
            final(self).wf(),
            final(self)@.len() >= 1,
            final(self)@ == keep_last(old(self)@.push(final(self)@.last()), CAPACITY as nat),
            final(self)@.last().id@ == id@,
            final(self)@.last().connection_id@ == connection_id@,
            final(self)@.last().database@ == database@,
            final(self)@.last().collection@ == collection@,
            final(self)@.last().query == (QueryRecord::Aggregate { pipeline }),
            final(self)@.last().execution_time_ms == Some(execution_time_ms),
    {
        let id = fresh_id();
        let entry = QueryHistoryEntry {
            id: id.clone(),
            connection_id,
            database,
            collection,
            query: QueryRecord::Aggregate { pipeline },
            executed_at: now(),
            execution_time_ms: Some(execution_time_ms),
        };
        self.record(entry);
        id
    }

    /// The logged operations of one connection, or of all when none is
    /// named: newest first, at most `limit` of them (`DEFAULT_QUERY_LIMIT`
    /// when no limit is given).
    pub fn query(&self, connection_id: Option<&str>, limit: Option<usize>) -> (r: Vec<
        &QueryHistoryEntry<P>,
    >)
        ensures
            r@.map_values(|e: &QueryHistoryEntry<P>| *e) == query_result(
                self@,
                match connection_id {
                    Some(c) => Some(c@),
                    None => None,
                },
                query_limit(limit),
            ),
    {
        let ghost connection: Option<Seq<char>> = match connection_id {
            Some(c) => Some(c@),
            None => None,
        };
        let mut out: Vec<&QueryHistoryEntry<P>> = Vec::new();
        let n = self.log.len();
        let mut i: usize = 0;
        proof {
            assert(self@.take(0) =~= Seq::empty());
            assert(out@.map_values(|e: &QueryHistoryEntry<P>| *e) =~= Seq::empty());
        }
        while i < n
            invariant
                n == self@.len(),
                i <= n,
                connection == match connection_id {
                    Some(c) => Some(c@),
                    None => None,
                },
                out@.map_values(|e: &QueryHistoryEntry<P>| *e) == by_recency(
                    of_connection(self@.take(i as int), connection),
                ),
                newest_first_ordered(out@.map_values(|e: &QueryHistoryEntry<P>| *e)),
            decreases n - i,
        {
            let entry = self.log.get(i);
            let wanted = match connection_id {
                Some(c) => same_text(entry.connection_id.as_str(), c),
                None => true,
            };
            proof {
                let k = i as int;
                assert(self@.take(k + 1).drop_last() =~= self@.take(k));
                assert(self@.take(k + 1).last() == *entry);
                reveal(Seq::filter);
            }
            if wanted {
                let ghost sorted = out@.map_values(|e: &QueryHistoryEntry<P>| *e);
                let mut k: usize = out.len();
                while k > 0 && entry.executed_at.is_later_than(&out[k - 1].executed_at)
                    invariant
                        k <= out@.len(),
                        sorted == out@.map_values(|e: &QueryHistoryEntry<P>| *e),
                        forall|j: int|
                            k <= j < sorted.len() ==> entry.executed_at.later_than(
                                sorted[j].executed_at,
                            ),
                    decreases k,
                {
                    k -= 1;
                }
                out.insert(k, entry);
                proof {
                    lemma_placed_at(sorted, *entry, k as int);
                    lemma_placed(sorted, *entry);
                    assert(out@.map_values(|e: &QueryHistoryEntry<P>| *e) =~= sorted.insert(
                        k as int,
                        *entry,
                    ));
                    assert(of_connection(self@.take(i + 1), connection).drop_last()
                        =~= of_connection(self@.take(i as int), connection));
                }
            }
            i += 1;
        }
        proof {
            assert(self@.take(n as int) =~= self@);
        }
        let cap = match limit {
            Some(n) => n,
            None => DEFAULT_QUERY_LIMIT,
        };
        if cap < out.len() {
            let ghost full = out@;
            out.truncate(cap);
            assert(out@.map_values(|e: &QueryHistoryEntry<P>| *e) =~= full.map_values(
                |e: &QueryHistoryEntry<P>| *e,
            ).take(cap as int));
        }
        out
    }

    /// Removes the entries whose identifier is `entry_id`. Removing what
    /// is not there changes nothing.
    pub fn delete(&mut self, entry_id: &str)
        requires
            old(self).wf(),
        ensures
            final(self).wf(),
            final(self)@ == without_id(old(self)@, entry_id@),
    {
        let mut i: usize = 0;
        let ghost mut seen: int = 0;
        proof {
            assert(old(self)@.take(0) =~= Seq::empty());
            assert(old(self)@.skip(0) =~= old(self)@);
            assert(self@ =~= without_id(old(self)@.take(0), entry_id@) + old(self)@.skip(0));
        }
        while i < self.log.len()
            invariant
                old(self).wf(),
                self.log.wf(),
                0 <= seen <= old(self)@.len(),
                i == without_id(old(self)@.take(seen), entry_id@).len(),
                self@ == without_id(old(self)@.take(seen), entry_id@) + old(self)@.skip(seen),
            decreases old(self)@.len() - seen,
        {
            let ghost kept = without_id(old(self)@.take(seen), entry_id@);
            proof {
                assert(self@[i as int] == old(self)@[seen]);
                assert(old(self)@.take(seen + 1).drop_last() =~= old(self)@.take(seen));
                assert(old(self)@.take(seen + 1).last() == old(self)@[seen]);
                reveal(Seq::filter);
            }
            if same_text(self.log.get(i).id.as_str(), entry_id) {
                let _ = self.log.remove_at(i);
                proof {
                    assert(self@ =~= kept + old(self)@.skip(seen + 1));
                }
            } else {
                proof {
                    assert(self@ =~= kept.push(old(self)@[seen]) + old(self)@.skip(seen + 1));
                }
                i += 1;
            }
            proof {
                seen = seen + 1;
            }
        }
        proof {
            assert(old(self)@.skip(seen) =~= Seq::empty()) by {
                if seen < old(self)@.len() {
                    assert(self@.len() == i + (old(self)@.len() - seen));
                }
            }
            assert(old(self)@.take(seen) =~= old(self)@);
            assert(self@ =~= without_id(old(self)@, entry_id@));
        }
    }

    /// Removes every entry.
    pub fn clear(&mut self)
        ensures
            final(self).wf(),
            final(self)@ == Seq::<QueryHistoryEntry<P>>::empty(),
    {
        self.log.clear();
    }
}

/// Recording into a full history keeps its size at `CAPACITY`: the oldest
/// entry leaves, the others move up in their order, and the new entry is
/// last. Where entries are told apart by their identifiers, no entry with
/// the identifier of the evicted one is left.
pub proof fn lemma_record_when_full<P>(
    before: Seq<QueryHistoryEntry<P>>,
    entry: QueryHistoryEntry<P>,
)
    requires
        before.len() == CAPACITY,
    ensures
        keep_last(before.push(entry), CAPACITY as nat).len() == CAPACITY,
        keep_last(before.push(entry), CAPACITY as nat) == before.skip(1).push(entry),
        (forall|i: int| 0 < i < before.len() ==> (#[trigger] before[i]).id@ != before[0].id@)
            && entry.id@ != before[0].id@ ==> forall|i: int|
            0 <= i < CAPACITY ==> (#[trigger] keep_last(before.push(entry), CAPACITY as nat)[i]).id@
                != before[0].id@,
{
    crate::bounded::lemma_push_at_capacity(before, entry);
}

/// Deleting an entry twice is the same as deleting it once, and after a
/// delete no entry with that identifier is left.
pub proof fn lemma_delete_is_idempotent<P>(entries: Seq<QueryHistoryEntry<P>>, id: Seq<char>)
    ensures
        without_id(without_id(entries, id), id) == without_id(entries, id),
        forall|i: int|
            0 <= i < without_id(entries, id).len() ==> (#[trigger] without_id(entries, id)[i]).id@
                != id,
        without_id(entries, id).len() <= entries.len(),
    decreases entries.len(),
{
    reveal(Seq::filter);
    if entries.len() > 0 {
        let front = entries.drop_last();
        lemma_delete_is_idempotent(front, id);
        if entries.last().id@ != id {
            assert(without_id(entries, id).drop_last() =~= without_id(front, id));
        }
    }
}

} // verus!
