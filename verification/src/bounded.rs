//! A fixed-capacity, arrival-ordered log that evicts its oldest entry on
//! overflow. Change-feed buffers and the query history are built on it.

use vstd::prelude::*;

verus! {

/// The most entries a log ever holds.
pub const CAPACITY: usize = 1000;

/// The last `n` elements of `s`, in order (all of `s` when it is shorter).
pub open spec fn keep_last<T>(s: Seq<T>, n: nat) -> Seq<T> {
    if s.len() > n {
        s.skip(s.len() - n)
    } else {
        s
    }
}

/// Up to `limit` elements of `s`, starting from the last and going backwards.
pub open spec fn newest_first<T>(s: Seq<T>, limit: nat) -> Seq<T> {
    Seq::new(
        if limit < s.len() {
            limit
        } else {
            s.len()
        },
        |i: int| s[s.len() - 1 - i],
    )
}

/// What a log that held `s` holds after the elements of `xs` were pushed
/// one after the other.
pub open spec fn pushed_all<T>(s: Seq<T>, xs: Seq<T>) -> Seq<T>
    decreases xs.len(),
{
    if xs.len() == 0 {
        s
    } else {
        pushed_all(keep_last(s.push(xs[0]), CAPACITY as nat), xs.skip(1))
    }
}

pub struct BoundedLog<T> {
    items: Vec<T>,
}

impl<T> View for BoundedLog<T> {
    type V = Seq<T>;

    closed spec fn view(&self) -> Seq<T> {
        self.items@
    }
}

impl<T> BoundedLog<T> {
    /// The log never holds more than `CAPACITY` entries.
    pub open spec fn wf(&self) -> bool {
        self@.len() <= CAPACITY
    }

    pub fn new() -> (log: Self)
        ensures
            log.wf(),
            log@ == Seq::<T>::empty(),
    {
        BoundedLog { items: Vec::new() }
    }

    pub fn len(&self) -> (n: usize)
        ensures
            n == self@.len(),
    {
        self.items.len()
    }

    pub fn get(&self, i: usize) -> (item: &T)
        requires
            i < self@.len(),
        ensures
            *item == self@[i as int],
    {
        &self.items[i]
    }

    /// Appends `item` at the tail; a full log first loses its oldest entry.
    pub fn push(&mut self, item: T)
        requires
            old(self).wf(),
        ensures
            final(self).wf(),
            final(self)@ == keep_last(old(self)@.push(item), CAPACITY as nat),
    {
        self.items.push(item);
        if self.items.len() > CAPACITY {
            self.items.remove(0);
            assert(self@ =~= keep_last(old(self)@.push(item), CAPACITY as nat));
        }
    }

    /// Removes the entry at index `i`, keeping the order of the others.
    pub fn remove_at(&mut self, i: usize) -> (item: T)
        requires
            old(self).wf(),
            i < old(self)@.len(),
        ensures
            final(self).wf(),
            item == old(self)@[i as int],
            final(self)@ == old(self)@.remove(i as int),
    {
        self.items.remove(i)
    }

    pub fn clear(&mut self)
        ensures
            final(self).wf(),
            final(self)@ == Seq::<T>::empty(),
    {
        self.items.clear();
    }

    /// Up to `limit` of the most recently pushed entries, newest first.
    /// The log itself is left as it is.
    pub fn recent(&self, limit: usize) -> (r: Vec<&T>)
        ensures
            r@.len() == newest_first(self@, limit as nat).len(),
            forall|i: int| 0 <= i < r@.len() ==> *r@[i] == newest_first(self@, limit as nat)[i],
    {
        let n = self.items.len();
        let take = if limit < n { limit } else { n };
        let mut out: Vec<&T> = Vec::new();
        let mut i: usize = 0;
        while i < take
            invariant
                n == self.items@.len(),
                take <= n,
                take == newest_first(self@, limit as nat).len(),
                i <= take,
                out@.len() == i,
                forall|j: int| 0 <= j < i ==> *out@[j] == self@[n - 1 - j],
            decreases take - i,
        {
            out.push(&self.items[n - 1 - i]);
            i += 1;
        }
        out
    }
}

/// Pushing onto a log that is not yet full only appends.
pub proof fn lemma_push_below_capacity<T>(s: Seq<T>, x: T)
    requires
        s.len() < CAPACITY,
    ensures
        keep_last(s.push(x), CAPACITY as nat) == s.push(x),
{
}

/// Pushing onto a full log keeps its size: the oldest entry leaves, the
/// others keep their order, and the new entry is last.
pub proof fn lemma_push_at_capacity<T>(s: Seq<T>, x: T)
    requires
        s.len() == CAPACITY,
    ensures
        keep_last(s.push(x), CAPACITY as nat).len() == CAPACITY,
        keep_last(s.push(x), CAPACITY as nat) == s.skip(1).push(x),
        forall|i: int|
            0 <= i < CAPACITY - 1 ==> keep_last(s.push(x), CAPACITY as nat)[i] == s[i + 1],
{
    assert(keep_last(s.push(x), CAPACITY as nat) =~= s.skip(1).push(x));
}

/// However many entries are pushed, a log within capacity stays within
/// capacity and ends up holding exactly the most recent `CAPACITY` of
/// everything it ever held, oldest first.
pub proof fn lemma_pushed_all<T>(s: Seq<T>, xs: Seq<T>)
    requires
        s.len() <= CAPACITY,
    ensures
        pushed_all(s, xs) == keep_last(s + xs, CAPACITY as nat),
        pushed_all(s, xs).len() <= CAPACITY,
    decreases xs.len(),
{
    if xs.len() == 0 {
        assert(s + xs =~= s);
    } else {
        let next = keep_last(s.push(xs[0]), CAPACITY as nat);
        lemma_pushed_all(next, xs.skip(1));
        assert(keep_last(next + xs.skip(1), CAPACITY as nat) =~= keep_last(
            s + xs,
            CAPACITY as nat,
        ));
    }
}

/// Starting from an empty log, pushing `xs` leaves the last `CAPACITY`
/// elements of `xs`, in the order they have in `xs`.
pub proof fn lemma_pushed_all_from_empty<T>(xs: Seq<T>)
    ensures
        pushed_all(Seq::<T>::empty(), xs) == keep_last(xs, CAPACITY as nat),
        xs.len() >= CAPACITY ==> pushed_all(Seq::<T>::empty(), xs).len() == CAPACITY,
        forall|i: int|
            0 <= i < pushed_all(Seq::<T>::empty(), xs).len() && xs.len() >= CAPACITY
                ==> pushed_all(Seq::<T>::empty(), xs)[i] == xs[xs.len() - CAPACITY + i],
{
    lemma_pushed_all(Seq::<T>::empty(), xs);
    assert(Seq::<T>::empty() + xs =~= xs);
}

} // verus!
