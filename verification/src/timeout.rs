use vstd::prelude::*;
use vstd::map::*;

use crate::error::ServerError;
use priority_queue::PriorityQueue;

verus! {

/// Declaration of `priority_queue::PriorityQueue` so its values can live in
/// fields and signatures here. The queue itself stays opaque; what it holds
/// is named by `pq_entries` below.
#[verifier::external_type_specification]
#[verifier::external_body]
#[verifier::reject_recursive_types(I)]
#[verifier::reject_recursive_types(P)]
#[verifier::reject_recursive_types(H)]
pub struct ExPriorityQueue<I, P, H>(PriorityQueue<I, P, H>);

/// The items a queue holds, each with its priority. One entry per item:
/// `PriorityQueue` keeps a hash map from items to priorities underneath.
pub uninterp spec fn pq_entries(q: PriorityQueue<u32, u64>) -> Map<u32, u64>;

/// Whether the queue holds no items at all.
pub open spec fn pq_is_empty(q: PriorityQueue<u32, u64>) -> bool {
    pq_entries(q) == Map::<u32, u64>::empty()
}

/// Relies on `PriorityQueue::new`: the queue starts empty.
#[verifier::external_body]
fn pq_new() -> (q: PriorityQueue<u32, u64>)
    ensures
        pq_is_empty(q),
{
    PriorityQueue::new()
}

/// Relies on `PriorityQueue::push`: inserts the item with the given
/// priority, or updates the priority of an existing item, returning the old
/// priority in that case.
#[verifier::external_body]
fn pq_push(q: &mut PriorityQueue<u32, u64>, id: u32, prio: u64) -> (old_prio: Option<u64>)
    ensures
        pq_entries(*final(q)) == pq_entries(*old(q)).insert(id, prio),
        pq_entries(*final(q)).dom().finite() == pq_entries(*old(q)).dom().finite(),
        pq_entries(*old(q)).dom().contains(id) ==> old_prio == Some(pq_entries(*old(q))[id]),
        !pq_entries(*old(q)).dom().contains(id) ==> old_prio is None,
{
    q.push(id, prio)
}

/// Relies on `PriorityQueue::change_priority`: if the item is present, its
/// priority becomes the given one and the old priority comes back; an absent
/// item leaves the queue unchanged and yields `None`.
#[verifier::external_body]
fn pq_change_priority(q: &mut PriorityQueue<u32, u64>, id: u32, prio: u64) -> (old_prio: Option<
    u64,
>)
    ensures
        pq_entries(*old(q)).dom().contains(id) ==> pq_entries(*final(q)) == pq_entries(
            *old(q),
        ).insert(id, prio) && old_prio == Some(pq_entries(*old(q))[id]),
        !pq_entries(*old(q)).dom().contains(id) ==> *final(q) == *old(q) && old_prio is None,
{
    q.change_priority(&id, prio)
}

/// Relies on `PriorityQueue::remove`: takes the item out and returns it with
/// its priority; an absent item leaves the queue unchanged.
#[verifier::external_body]
fn pq_remove(q: &mut PriorityQueue<u32, u64>, id: u32) -> (r: Option<(u32, u64)>)
    ensures
        pq_entries(*old(q)).dom().contains(id) ==> pq_entries(*final(q)) == pq_entries(
            *old(q),
        ).remove(id) && r == Some((id, pq_entries(*old(q))[id])),
        !pq_entries(*old(q)).dom().contains(id) ==> *final(q) == *old(q) && r is None,
{
    q.remove(&id)
}

/// Relies on `PriorityQueue::peek`: returns a pair with the greatest
/// priority in the queue, or `None` exactly when the queue is empty. Which
/// item comes back on a priority tie is the queue's choice.
#[verifier::external_body]
fn pq_peek(q: &PriorityQueue<u32, u64>) -> (r: Option<(u32, u64)>)
    ensures
        r is None <==> pq_is_empty(*q),
        r matches Some(pair) ==> pq_entries(*q).contains_pair(pair.0, pair.1) && forall|k: u32|
            pq_entries(*q).dom().contains(k) ==> pq_entries(*q)[k] <= pair.1,
{
    match q.peek() {
        Some((k, p)) => Some((*k, *p)),
        None => None,
    }
}

/// Relies on `PriorityQueue::get_priority`: the stored priority of the item,
/// or `None` if the item is absent.
#[verifier::external_body]
fn pq_get_priority(q: &PriorityQueue<u32, u64>, id: u32) -> (r: Option<u64>)
    ensures
        pq_entries(*q).dom().contains(id) ==> r == Some(pq_entries(*q)[id]),
        !pq_entries(*q).dom().contains(id) ==> r is None,
{
    match q.get_priority(&id) {
        Some(p) => Some(*p),
        None => None,
    }
}

/// Relies on `PriorityQueue::len`: the number of items held.
#[verifier::external_body]
fn pq_len(q: &PriorityQueue<u32, u64>) -> (r: usize)
    ensures
        pq_entries(*q).dom().finite() ==> r == pq_entries(*q).dom().len(),
{
    q.len()
}

/// The liveness scheduler: one entry per currently connected identity,
/// holding the instant of its last heartbeat. Backed by a priority queue
/// ordered so that the stalest entry surfaces first; the queue stores each
/// stamp complemented (`u64::MAX - stamp`), turning the queue's
/// greatest-first order into earliest-stamp-first.
#[derive(Debug)]
pub struct TimeoutScheduler {
    queue: PriorityQueue<u32, u64>,
}

impl TimeoutScheduler {
    /// The tracked identities, each mapped to its last-heartbeat stamp.
    pub closed spec fn times(self) -> Map<u32, u64> {
        Map::new(
            |id: u32| pq_entries(self.queue).dom().contains(id),
            |id: u32| (u64::MAX - pq_entries(self.queue)[id]) as u64,
        )
    }

    /// The backing queue holds finitely many entries; carried as an
    /// invariant so entry counts make sense.
    pub closed spec fn inv(self) -> bool {
        pq_entries(self.queue).dom().finite()
    }

    pub fn new() -> (r: TimeoutScheduler)
        ensures
            r.inv(),
            r.times() =~= Map::<u32, u64>::empty(),
    {
        let queue = pq_new();
        let r = TimeoutScheduler { queue };
        proof {
            assert(r.times() =~= Map::<u32, u64>::empty());
        }
        r
    }

    /// Start tracking `id` with `now` as its last heartbeat; an already
    /// tracked identity is re-stamped.
    pub fn track(&mut self, id: u32, now: u64)
        requires
            old(self).inv(),
        ensures
            final(self).inv(),
            final(self).times() == old(self).times().insert(id, now),
    {
        let prio = u64::MAX - now;
        pq_push(&mut self.queue, id, prio);
        proof {
            assert(self.times() =~= old(self).times().insert(id, now));
        }
    }

    /// Refresh the heartbeat stamp of `id`; `PlayerNotFound` if `id` is not
    /// tracked.
    pub fn touch(&mut self, id: u32, now: u64) -> (r: Result<(), ServerError>)
        requires
            old(self).inv(),
        ensures
            final(self).inv(),
            old(self).times().dom().contains(id) ==> r is Ok && final(self).times() == old(
                self,
            ).times().insert(id, now),
            !old(self).times().dom().contains(id) ==> r == Err::<(), ServerError>(
                ServerError::PlayerNotFound,
            ) && *final(self) == *old(self),
    {
        let prio = u64::MAX - now;
        match pq_change_priority(&mut self.queue, id, prio) {
            Some(_) => {
                proof {
                    assert(self.times() =~= old(self).times().insert(id, now));
                }
                Ok(())
            },
            None => {
                proof {
                    assert(self.times() =~= old(self).times());
                }
                Err(ServerError::PlayerNotFound)
            },
        }
    }

    /// Stop tracking `id`; `PlayerNotFound` if `id` is not tracked.
    pub fn untrack(&mut self, id: u32) -> (r: Result<(), ServerError>)
        requires
            old(self).inv(),
        ensures
            final(self).inv(),
            old(self).times().dom().contains(id) ==> r is Ok && final(self).times() == old(
                self,
            ).times().remove(id),
            !old(self).times().dom().contains(id) ==> r == Err::<(), ServerError>(
                ServerError::PlayerNotFound,
            ) && *final(self) == *old(self),
    {
        match pq_remove(&mut self.queue, id) {
            Some(_) => {
                proof {
                    assert(self.times() =~= old(self).times().remove(id));
                }
                Ok(())
            },
            None => {
                proof {
                    assert(self.times() =~= old(self).times());
                }
                Err(ServerError::PlayerNotFound)
            },
        }
    }

    /// Whether `id` is tracked.
    pub fn contains(&self, id: u32) -> (r: bool)
        ensures
            r == self.times().dom().contains(id),
    {
        pq_get_priority(&self.queue, id).is_some()
    }

    /// The number of tracked identities.
    pub fn len(&self) -> (r: usize)
        requires
            self.inv(),
        ensures
            r == self.times().dom().len(),
    {
        proof {
            assert(self.times().dom() =~= pq_entries(self.queue).dom());
        }
        pq_len(&self.queue)
    }

    /// The tracked identity with the earliest heartbeat stamp, with that
    /// stamp, or `None` when nothing is tracked. Which identity comes back
    /// when several share the earliest stamp is the backing queue's choice.
    pub fn peek_earliest(&self) -> (r: Option<(u32, u64)>)
        ensures
            r is None <==> self.times() == Map::<u32, u64>::empty(),
            r matches Some(pair) ==> self.times().contains_pair(pair.0, pair.1) && forall|k: u32|
                self.times().dom().contains(k) ==> pair.1 <= self.times()[k],
    {
        match pq_peek(&self.queue) {
            Some((id, prio)) => {
                proof {
                    assert(self.times().dom().contains(id));
                    assert(!Map::<u32, u64>::empty().dom().contains(id));
                    assert forall|k: u32| self.times().dom().contains(k) implies ((u64::MAX - prio)
                        as u64) <= self.times()[k] by {
                        assert(pq_entries(self.queue).dom().contains(k));
                        assert(pq_entries(self.queue)[k] <= prio);
                    }
                }
                Some((id, u64::MAX - prio))
            },
            None => {
                proof {
                    assert(self.times() =~= Map::<u32, u64>::empty());
                }
                None
            },
        }
    }
}

/// Under the scheduler invariant the set of tracked identities is finite,
/// which is what lets eviction scans terminate.
pub proof fn lemma_times_finite(s: TimeoutScheduler)
    requires
        s.inv(),
    ensures
        s.times().dom().finite(),
{
    assert(s.times().dom() =~= pq_entries(s.queue).dom());
}

/// A heartbeat refresh at a stamp no earlier than every stored stamp leaves
/// the refreshed identity with the latest stamp: every entry untouched since
/// sorts no later than it, so the refreshed identity is the last the sweep
/// would reach.
pub proof fn lemma_touch_moves_last(before: Map<u32, u64>, id: u32, now: u64)
    requires
        forall|k: u32| before.dom().contains(k) ==> before[k] <= now,
    ensures
        forall|k: u32|
            before.insert(id, now).dom().contains(k) ==> before.insert(id, now)[k]
                <= before.insert(id, now)[id],
{
}

} // verus!
