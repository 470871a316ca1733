//! The schedule of a scope: its subscribers, each with the event it subscribes to.
use vstd::prelude::*;
use crate::event::{Event, EventId};

verus! {

/// A subscriber stored in a schedule.
pub struct SubscriberEntry<T> {
    /// The number that the schedule gave the subscriber.
    pub id: u128,
    /// The event the subscriber subscribes to; `None` for all events.
    pub filter: Option<EventId>,
    /// The subscriber.
    pub subscriber: T,
}

/// A subscriber with this filter runs for an event with this identifier.
pub open spec fn filter_accepts(filter: Option<EventId>, id: EventId) -> bool {
    match filter {
        None => true,
        Some(f) => f == id,
    }
}

/// Whether a subscriber with `filter` subscribes to `e`.
pub fn subscribes<E: Event + ?Sized>(filter: Option<EventId>, e: &E) -> (b: bool)
    ensures
        b == filter_accepts(filter, e.event_id_spec()),
{
    match filter {
        None => true,
        Some(f) => e.event_id().0 == f.0,
    }
}

/// Names a subscriber of a schedule, to dispose of it.
#[derive(Debug, Clone, Copy)]
pub struct SubscriberHandle(u128);

impl SubscriberHandle {
    /// The number of the subscriber.
    pub closed spec fn id(&self) -> u128 {
        self.0
    }

    /// The number of the subscriber.
    pub fn number(&self) -> (n: u128)
        ensures
            n == self.id(),
    {
        self.0
    }
}

/// Holds the subscribers of a scope.
pub struct Schedule<T> {
    subscribers: Vec<SubscriberEntry<T>>,
    it_id: u128,
    history: Ghost<Seq<ScheduleStep<()>>>,
}

/// The subscribers in the order they were inserted: their numbers, filters and values.
pub open spec fn entries_view<T>(v: Seq<SubscriberEntry<T>>) -> Seq<(u128, Option<EventId>, T)> {
    v.map_values(|e: SubscriberEntry<T>| (e.id, e.filter, e.subscriber))
}

/// The numbers of `entries`, in order.
pub open spec fn ids_of<T>(entries: Seq<(u128, Option<EventId>, T)>) -> Seq<u128> {
    entries.map_values(|e: (u128, Option<EventId>, T)| e.0)
}

/// Removing a number from two lists with the same numbers leaves the same numbers.
proof fn lemma_without_same_ids<T, U>(
    a: Seq<(u128, Option<EventId>, T)>,
    b: Seq<(u128, Option<EventId>, U)>,
    k: u128,
)
    requires
        ids_of(a) == ids_of(b),
    ensures
        ids_of(without_id(a, k)) == ids_of(without_id(b, k)),
    decreases a.len(),
{
    assert(ids_of(a).len() == a.len() && ids_of(b).len() == b.len());
    if a.len() > 0 {
        assert(ids_of(a.drop_last()) =~= ids_of(a).drop_last());
        assert(ids_of(b.drop_last()) =~= ids_of(b).drop_last());
        lemma_without_same_ids(a.drop_last(), b.drop_last(), k);
        assert(a.last().0 == ids_of(a)[a.len() - 1]);
        assert(b.last().0 == ids_of(b)[b.len() - 1]);
        let ra = without_id(a.drop_last(), k);
        let rb = without_id(b.drop_last(), k);
        assert(ids_of(ra.push(a.last())) =~= ids_of(ra).push(a.last().0));
        assert(ids_of(rb.push(b.last())) =~= ids_of(rb).push(b.last().0));
    }
}

/// A subscriber with no filter runs for every event; one filtered on `f` runs exactly
/// for the events whose identifier is `f`, compared as whole 64-bit numbers.
pub proof fn lemma_filter_accepts(f: EventId, id: EventId)
    ensures
        filter_accepts(None, id),
        filter_accepts(Some(f), id) <==> f.0 == id.0,
{
}

/// Triggering an event lists, in insertion order and once each, exactly the
/// subscribers that have no filter or whose filter is the event's identifier.
pub proof fn lemma_trigger_lists_subscribers_of_event<T>(entries: Seq<(u128, Option<EventId>, T)>, id: EventId)
    requires
        forall|i: int, j: int| 0 <= i < j < entries.len() ==> entries[i].0 < entries[j].0,
    ensures
        forall|a: int, b: int|
            0 <= a < b < matching_ids(entries, id).len() ==> matching_ids(entries, id)[a]
                < matching_ids(entries, id)[b],
        forall|i: int|
            0 <= i < entries.len() ==> (matching_ids(entries, id).contains(#[trigger] entries[i].0) <==> (
            entries[i].1 is None || entries[i].1 == Some(id))),
{
    lemma_matching_ids_each_once(entries, id);
    assert forall|i: int| 0 <= i < entries.len() implies (matching_ids(entries, id).contains(
        #[trigger] entries[i].0,
    ) <==> (entries[i].1 is None || entries[i].1 == Some(id))) by {
        if matching_ids(entries, id).contains(entries[i].0) {
            let j = choose|j: int| 0 <= j < entries.len() && #[trigger] entries[j].0 == entries[i].0 && filter_accepts(entries[j].1, id);
            if j < i {
                assert(entries[j].0 < entries[i].0);
            } else if i < j {
                assert(entries[i].0 < entries[j].0);
            }
        }
    }
}

/// The position of the entry numbered `id`.
pub open spec fn index_of_id<T>(entries: Seq<(u128, Option<EventId>, T)>, id: u128) -> int {
    choose|i: int| 0 <= i < entries.len() && entries[i].0 == id
}

/// The numbers of the entries whose filter accepts `id`, in order.
pub open spec fn matching_ids<T>(entries: Seq<(u128, Option<EventId>, T)>, id: EventId) -> Seq<u128>
    decreases entries.len(),
{
    if entries.len() == 0 {
        seq![]
    } else {
        let rest = matching_ids(entries.drop_last(), id);
        if filter_accepts(entries.last().1, id) {
            rest.push(entries.last().0)
        } else {
            rest
        }
    }
}

/// The numbers of `entries` increase strictly and stay below `next`.
pub open spec fn numbers_increasing<T>(entries: Seq<(u128, Option<EventId>, T)>, next: u128) -> bool {
    &&& forall|i: int, j: int| 0 <= i < j < entries.len() ==> entries[i].0 < entries[j].0
    &&& forall|i: int| 0 <= i < entries.len() ==> entries[i].0 < next
}

/// When numbers increase strictly, the matching numbers increase strictly too, so no
/// subscriber is listed twice; and a number is listed exactly when it belongs to an entry
/// whose filter accepts `id`.
pub proof fn lemma_matching_ids_each_once<T>(entries: Seq<(u128, Option<EventId>, T)>, id: EventId)
    requires
        forall|i: int, j: int| 0 <= i < j < entries.len() ==> entries[i].0 < entries[j].0,
    ensures
        forall|a: int, b: int|
            0 <= a < b < matching_ids(entries, id).len() ==> matching_ids(entries, id)[a]
                < matching_ids(entries, id)[b],
        forall|k: u128|
            matching_ids(entries, id).contains(k) <==> exists|i: int|
                0 <= i < entries.len() && #[trigger] entries[i].0 == k && filter_accepts(
                    entries[i].1,
                    id,
                ),
    decreases entries.len(),
{
    if entries.len() > 0 {
        let init = entries.drop_last();
        let last = entries.last();
        lemma_matching_ids_each_once(init, id);
        let rest = matching_ids(init, id);
        assert forall|a: int| 0 <= a < rest.len() implies rest[a] < last.0 by {
            assert(rest.contains(rest[a]));
            let i = choose|i: int| 0 <= i < init.len() && #[trigger] init[i].0 == rest[a] && filter_accepts(init[i].1, id);
            assert(entries[i].0 < entries[entries.len() - 1].0);
        }
        assert forall|k: u128| matching_ids(entries, id).contains(k) <==> exists|i: int|
            0 <= i < entries.len() && #[trigger] entries[i].0 == k && filter_accepts(entries[i].1, id) by {
            if matching_ids(entries, id).contains(k) {
                if rest.contains(k) {
                    let i = choose|i: int| 0 <= i < init.len() && #[trigger] init[i].0 == k && filter_accepts(init[i].1, id);
                    assert(entries[i].0 == k);
                } else {
                    assert(k == last.0 && filter_accepts(last.1, id));
                    assert(entries[entries.len() - 1].0 == k);
                }
            }
            if exists|i: int| 0 <= i < entries.len() && #[trigger] entries[i].0 == k && filter_accepts(entries[i].1, id) {
                let i = choose|i: int| 0 <= i < entries.len() && #[trigger] entries[i].0 == k && filter_accepts(entries[i].1, id);
                if i < entries.len() - 1 {
                    assert(init[i].0 == k);
                    assert(rest.contains(k));
                    if filter_accepts(last.1, id) {
                        let j = choose|j: int| 0 <= j < rest.len() && rest[j] == k;
                        assert(matching_ids(entries, id)[j] == k);
                    }
                } else {
                    assert(matching_ids(entries, id)[matching_ids(entries, id).len() - 1] == k);
                }
            }
        }
    }
}

/// The entries without the one numbered `n`.
pub open spec fn without_id<T>(entries: Seq<(u128, Option<EventId>, T)>, n: u128) -> Seq<(u128, Option<EventId>, T)>
    decreases entries.len(),
{
    if entries.len() == 0 {
        seq![]
    } else {
        let rest = without_id(entries.drop_last(), n);
        if entries.last().0 != n {
            rest.push(entries.last())
        } else {
            rest
        }
    }
}

proof fn lemma_without_absent<T>(entries: Seq<(u128, Option<EventId>, T)>, n: u128)
    requires
        forall|i: int| 0 <= i < entries.len() ==> entries[i].0 != n,
    ensures
        without_id(entries, n) == entries,
    decreases entries.len(),
{
    if entries.len() > 0 {
        lemma_without_absent(entries.drop_last(), n);
        assert(entries.drop_last().push(entries.last()) =~= entries);
    }
}

proof fn lemma_without_at<T>(entries: Seq<(u128, Option<EventId>, T)>, i: int, n: u128)
    requires
        0 <= i < entries.len(),
        entries[i].0 == n,
        forall|a: int, b: int| 0 <= a < b < entries.len() ==> entries[a].0 < entries[b].0,
    ensures
        without_id(entries, n) == entries.remove(i),
    decreases entries.len(),
{
    let last = entries.len() - 1;
    if i == last {
        lemma_without_absent(entries.drop_last(), n);
        assert(entries.drop_last() =~= entries.remove(i));
    } else {
        assert(entries[i].0 < entries[last].0);
        lemma_without_at(entries.drop_last(), i, n);
        assert(entries.drop_last().remove(i).push(entries.last()) =~= entries.remove(i));
    }
}

impl<T> Schedule<T> {
    /// The subscribers in the order they were inserted.
    pub closed spec fn entries(&self) -> Seq<(u128, Option<EventId>, T)> {
        entries_view(self.subscribers@)
    }

    /// The number the next subscriber will get.
    pub closed spec fn next_id(&self) -> u128 {
        self.it_id
    }

    /// The inserts and removals made so far, in order, each insert with its filter.
    pub closed spec fn history(&self) -> Seq<ScheduleStep<()>> {
        self.history@
    }

    /// The numbers are in increasing order and below the next number; the next number is
    /// the count of inserts so far, and the numbers present are those that the history
    /// leaves.
    pub closed spec fn wf(&self) -> bool {
        &&& forall|i: int, j: int|
            0 <= i < j < self.subscribers@.len() ==> self.subscribers@[i].id
                < self.subscribers@[j].id
        &&& forall|i: int| 0 <= i < self.subscribers@.len() ==> self.subscribers@[i].id < self.it_id
        &&& self.it_id == insert_count(self.history@)
        &&& ids_of(entries_view(self.subscribers@)) == ids_of(
            schedule_after(Seq::<(u128, Option<EventId>, ())>::empty(), 0, self.history@).0,
        )
    }

    /// A well-formed schedule is what its history made: the next number is the count of
    /// inserts so far, and the numbers present are, in order, those that the inserts
    /// handed out and the removals left.
    pub proof fn lemma_history(&self)
        requires
            self.wf(),
        ensures
            self.next_id() == insert_count(self.history()),
            ids_of(self.entries()) == ids_of(
                schedule_after(Seq::<(u128, Option<EventId>, ())>::empty(), 0, self.history()).0,
            ),
    {
        assert(ids_of(self.entries()) =~= ids_of(entries_view(self.subscribers@)));
    }

    /// In a well-formed schedule the numbers increase strictly in the order the
    /// subscribers were inserted, and all are below the next number.
    pub proof fn lemma_numbers(&self)
        requires
            self.wf(),
        ensures
            numbers_increasing(self.entries(), self.next_id()),
    {
        assert forall|i: int, j: int| 0 <= i < j < self.entries().len() implies self.entries()[i].0
            < self.entries()[j].0 by {
            assert(self.entries()[i].0 == self.subscribers@[i].id);
            assert(self.entries()[j].0 == self.subscribers@[j].id);
        }
        assert forall|i: int| 0 <= i < self.entries().len() implies self.entries()[i].0
            < self.next_id() by {
            assert(self.entries()[i].0 == self.subscribers@[i].id);
        }
    }

    /// The numbers of the subscribers.
    pub open spec fn ids(&self) -> Set<u128> {
        self.entries().map_values(|e: (u128, Option<EventId>, T)| e.0).to_set()
    }

    /// An empty schedule.
    pub fn new() -> (s: Self)
        ensures
            s.wf(),
            s.entries() == Seq::<(u128, Option<EventId>, T)>::empty(),
            s.next_id() == 0,
            s.history() == Seq::<ScheduleStep<()>>::empty(),
    {
        let s = Schedule { subscribers: Vec::new(), it_id: 0, history: Ghost(Seq::empty()) };
        assert(ids_of(entries_view(s.subscribers@)) =~= Seq::<u128>::empty());
        assert(ids_of(Seq::<(u128, Option<EventId>, ())>::empty()) =~= Seq::<u128>::empty());
        assert(s.entries() =~= Seq::<(u128, Option<EventId>, T)>::empty());
        s
    }

    /// The number the next subscriber will get.
    pub fn next_number(&self) -> (n: u128)
        ensures
            n == self.next_id(),
    {
        self.it_id
    }

    /// The number of subscribers.
    pub fn len(&self) -> (n: usize)
        ensures
            n == self.entries().len(),
    {
        self.subscribers.len()
    }

    /// Inserts a subscriber subscribing to `filter`; it gets the next number.
    pub fn insert(&mut self, filter: Option<EventId>, sub: T) -> (h: SubscriberHandle)
        requires
            old(self).wf(),
            old(self).next_id() < u128::MAX,
        ensures
            final(self).wf(),
            h.id() == old(self).next_id(),
            h.id() == insert_count(old(self).history()),
            final(self).next_id() == old(self).next_id() + 1,
            final(self).entries() == old(self).entries().push((h.id(), filter, sub)),
            final(self).history() == old(self).history().push(ScheduleStep::Insert(filter, ())),
    {
        let id = self.it_id;
        let ghost before = self.subscribers@;
        let ghost steps = self.history@;
        proof {
            lemma_numbers_never_reused(steps);
        }
        self.subscribers.push(SubscriberEntry { id, filter, subscriber: sub });
        self.it_id = id + 1;
        proof {
            let steps2 = steps.push(ScheduleStep::Insert(filter, ()));
            assert(steps2.drop_last() =~= steps);
            self.history = Ghost(steps2);
            let es = schedule_after(Seq::<(u128, Option<EventId>, ())>::empty(), 0, steps).0;
            assert(ids_of(es.push((id, filter, ()))) =~= ids_of(es).push(id));
            assert(ids_of(entries_view(before).push((id, filter, sub))) =~= ids_of(entries_view(before)).push(id));
        }
        assert(entries_view(self.subscribers@) =~= entries_view(before).push((id, filter, sub)));
        SubscriberHandle(id)
    }

    /// Removes the subscriber named by `handle`, giving it back; `None` when it is no
    /// longer there.
    pub fn remove(&mut self, handle: &SubscriberHandle) -> (r: Option<T>)
        requires
            old(self).wf(),
        ensures
            final(self).wf(),
            final(self).next_id() == old(self).next_id(),
            final(self).entries() == without_id(old(self).entries(), handle.id()),
            final(self).history() == old(self).history().push(ScheduleStep::Remove(handle.id())),
            match r {
                Some(t) => exists|i: int|
                    0 <= i < old(self).entries().len() && old(self).entries()[i] == (
                        handle.id(),
                        old(self).entries()[i].1,
                        t,
                    ),
                None => forall|i: int|
                    0 <= i < old(self).entries().len() ==> old(self).entries()[i].0
                        != handle.id(),
            },
    {
        let ghost old_entries = self.entries();
        let n = self.subscribers.len();
        let mut i: usize = 0;
        while i < n
            invariant
                n == self.subscribers@.len(),
                i <= n,
                old_entries == entries_view(self.subscribers@),
                old_entries == old(self).entries(),
                self.wf(),
                self.it_id == old(self).next_id(),
                self.history@ == old(self).history@,
                forall|j: int| 0 <= j < i ==> self.subscribers@[j].id != handle.0,
            decreases n - i,
        {
            if self.subscribers[i].id == handle.0 {
                let ghost before = self.subscribers@;
                let e = self.subscribers.remove(i);
                proof {
                    assert forall|a: int, b: int| 0 <= a < b < old_entries.len() implies old_entries[a].0 < old_entries[b].0 by {
                        assert(old_entries[a].0 == before[a].id && old_entries[b].0 == before[b].id);
                    }
                    assert(entries_view(self.subscribers@) =~= old_entries.remove(i as int));
                    lemma_without_at(old_entries, i as int, handle.0);
                    assert(old_entries[i as int] == (e.id, e.filter, e.subscriber));
                    lemma_history_removal(self.history@, old_entries, handle.0);
                    self.history = Ghost(self.history@.push(ScheduleStep::Remove(handle.0)));
                }
                return Some(e.subscriber);
            }
            i = i + 1;
        }
        proof {
            lemma_without_absent(old_entries, handle.0);
            lemma_history_removal(self.history@, old_entries, handle.0);
            self.history = Ghost(self.history@.push(ScheduleStep::Remove(handle.0)));
        }
        None
    }


    /// The numbers of the subscribers that subscribe to `e`, in the order they were
    /// inserted.
    pub fn trigger<E: Event + ?Sized>(&self, e: &E) -> (ids: Vec<u128>)
        ensures
            ids@ == matching_ids(self.entries(), e.event_id_spec()),
            self.wf() ==> forall|a: int, b: int| 0 <= a < b < ids@.len() ==> ids@[a] < ids@[b],
    {
        proof {
            if self.wf() {
                self.lemma_numbers();
                lemma_matching_ids_each_once(self.entries(), e.event_id_spec());
            }
        }
        let id = e.event_id();
        let mut ids: Vec<u128> = Vec::new();
        let n = self.subscribers.len();
        let mut i: usize = 0;
        while i < n
            invariant
                n == self.subscribers@.len(),
                i <= n,
                id == e.event_id_spec(),
                ids@ == matching_ids(self.entries().take(i as int), id),
            decreases n - i,
        {
            proof {
                assert(self.entries().take(i + 1).drop_last() =~= self.entries().take(i as int));
                assert(self.entries()[i as int].0 == self.subscribers@[i as int].id);
                assert(self.entries()[i as int].1 == self.subscribers@[i as int].filter);
                assert(self.entries().take(i + 1).last() == self.entries()[i as int]);
            }
            let ghost prefix = self.entries().take(i + 1);
            let accepted = subscribes(self.subscribers[i].filter, e);
            if accepted {
                ids.push(self.subscribers[i].id);
            }
            assert(ids@ == matching_ids(prefix, id));
            i = i + 1;
        }
        assert(self.entries().take(n as int) =~= self.entries());
        ids
    }

    /// The subscriber numbered `id`, to run it.
    pub fn get_mut(&mut self, id: u128) -> (r: Option<&mut T>)
        requires
            old(self).wf(),
        ensures
            final(self).wf(),
            final(self).next_id() == old(self).next_id(),
            final(self).history() == old(self).history(),
            match r {
                None => final(self).entries() == old(self).entries() && forall|i: int|
                    0 <= i < old(self).entries().len() ==> old(self).entries()[i].0 != id,
                Some(m) => {
                    let i = index_of_id(old(self).entries(), id);
                    &&& 0 <= i < old(self).entries().len()
                    &&& old(self).entries()[i].0 == id
                    &&& *m == old(self).entries()[i].2
                    &&& final(self).entries() == old(self).entries().update(
                        i,
                        (id, old(self).entries()[i].1, *final(m)),
                    )
                },
            },
    {
        let n = self.subscribers.len();
        let mut i: usize = 0;
        while i < n
            invariant
                n == self.subscribers@.len(),
                i <= n,
                self.wf(),
                self.it_id == old(self).next_id(),
                self.subscribers@ == old(self).subscribers@,
                self.history@ == old(self).history@,
                forall|j: int| 0 <= j < i ==> self.subscribers@[j].id != id,
            decreases n - i,
        {
            if self.subscribers[i].id == id {
                proof {
                    let k = index_of_id(self.entries(), id);
                    assert(self.entries()[i as int].0 == id);
                    if k != i {
                        assert(self.subscribers@[k].id == self.entries()[k].0);
                    }
                }
                proof {
                    let subs = self.subscribers@;
                    assert forall|x: SubscriberEntry<T>| x.id == subs[i as int].id implies ids_of(
                        entries_view(#[trigger] subs.update(i as int, x)),
                    ) == ids_of(entries_view(subs)) by {
                        assert(ids_of(entries_view(subs.update(i as int, x))) =~= ids_of(entries_view(subs)));
                    }
                }
                let entry = &mut self.subscribers[i];
                return Some(&mut entry.subscriber);
            }
            i = i + 1;
        }
        None
    }
}

/// One change made to a schedule: an insertion, or the removal of a number.
pub enum ScheduleStep<T> {
    /// `insert` with this filter and subscriber.
    Insert(Option<EventId>, T),
    /// `remove` of this number.
    Remove(u128),
}

/// The schedule (entries and next number) after `steps`, and the numbers that the
/// insertions among them handed out, in order; each step changes the schedule as the
/// contract of `insert` or `remove` says.
pub open spec fn schedule_after<T>(
    entries: Seq<(u128, Option<EventId>, T)>,
    next: int,
    steps: Seq<ScheduleStep<T>>,
) -> (Seq<(u128, Option<EventId>, T)>, int, Seq<int>)
    decreases steps.len(),
{
    if steps.len() == 0 {
        (entries, next, seq![])
    } else {
        let (es, n, handed) = schedule_after(entries, next, steps.drop_last());
        match steps.last() {
            ScheduleStep::Insert(filter, sub) => (es.push((n as u128, filter, sub)), n + 1, handed.push(n)),
            ScheduleStep::Remove(k) => (without_id(es, k), n, handed),
        }
    }
}

/// How many insertions `steps` holds.
pub open spec fn insert_count<T>(steps: Seq<ScheduleStep<T>>) -> int
    decreases steps.len(),
{
    if steps.len() == 0 {
        0
    } else {
        insert_count(steps.drop_last()) + if steps.last() is Insert { 1int } else { 0int }
    }
}

proof fn lemma_without_keeps_order<T>(entries: Seq<(u128, Option<EventId>, T)>, n: u128, next: u128)
    requires
        numbers_increasing(entries, next),
    ensures
        numbers_increasing(without_id(entries, n), next),
        forall|i: int| 0 <= i < without_id(entries, n).len() ==> exists|j: int|
            0 <= j < entries.len() && #[trigger] entries[j].0 == (#[trigger] without_id(entries, n)[i]).0,
    decreases entries.len(),
{
    if entries.len() > 0 {
        let init = entries.drop_last();
        lemma_without_keeps_order(init, n, next);
        let w = without_id(init, n);
        assert forall|i: int| 0 <= i < w.len() implies w[i].0 < entries.last().0 by {
            let j = choose|j: int| 0 <= j < init.len() && #[trigger] init[j].0 == w[i].0;
            assert(entries[j].0 < entries[entries.len() - 1].0);
        }
        let r = without_id(entries, n);
        assert forall|i: int| #![trigger r[i]] 0 <= i < r.len() implies exists|j: int|
            0 <= j < entries.len() && #[trigger] entries[j].0 == r[i].0 by {
            if i < w.len() {
                let j = choose|j: int| 0 <= j < init.len() && #[trigger] init[j].0 == w[i].0;
                assert(entries[j].0 == r[i].0);
            } else {
                assert(entries[entries.len() - 1].0 == r[i].0);
            }
        }
    }
}

/// Adding the removal of `k` to a history keeps the next number, and the numbers it
/// leaves are those left by removing `k`.
proof fn lemma_history_removal<T>(steps: Seq<ScheduleStep<()>>, before: Seq<(u128, Option<EventId>, T)>, k: u128)
    requires
        ids_of(before) == ids_of(schedule_after(Seq::<(u128, Option<EventId>, ())>::empty(), 0, steps).0),
    ensures
        insert_count(steps.push(ScheduleStep::Remove(k))) == insert_count(steps),
        ids_of(without_id(before, k)) == ids_of(
            schedule_after(Seq::<(u128, Option<EventId>, ())>::empty(), 0, steps.push(ScheduleStep::Remove(k))).0,
        ),
{
    let steps2 = steps.push(ScheduleStep::Remove(k));
    assert(steps2.drop_last() =~= steps);
    let es = schedule_after(Seq::<(u128, Option<EventId>, ())>::empty(), 0, steps).0;
    lemma_without_same_ids(before, es, k);
}

/// Numbers are never handed out twice: from a new schedule, the `k`-th insertion gets
/// number `k` whatever removals come between, the next number is the count of
/// insertions, and the numbers present increase strictly and are all below it.
pub proof fn lemma_numbers_never_reused<T>(steps: Seq<ScheduleStep<T>>)
    requires
        insert_count(steps) <= u128::MAX,
    ensures
        ({
            let (es, n, handed) = schedule_after(Seq::<(u128, Option<EventId>, T)>::empty(), 0, steps);
            &&& n == insert_count(steps)
            &&& handed.len() == n
            &&& forall|k: int| 0 <= k < handed.len() ==> #[trigger] handed[k] == k
            &&& numbers_increasing(es, n as u128)
        }),
    decreases steps.len(),
{
    if steps.len() > 0 {
        let init = steps.drop_last();
        assert(insert_count(init) <= insert_count(steps));
        lemma_numbers_never_reused(init);
        let (es, n, handed) = schedule_after(Seq::<(u128, Option<EventId>, T)>::empty(), 0, init);
        match steps.last() {
            ScheduleStep::Insert(filter, sub) => {
                let es2 = es.push((n as u128, filter, sub));
                assert(numbers_increasing(es2, (n + 1) as u128)) by {
                    assert forall|i: int, j: int| 0 <= i < j < es2.len() implies es2[i].0 < es2[j].0 by {
                        if j == es2.len() - 1 {
                            assert(es2[i].0 == es[i].0);
                        }
                    }
                }
            },
            ScheduleStep::Remove(k) => {
                lemma_without_keeps_order(es, k, n as u128);
            },
        }
    }
}

/// Removing the subscriber that an insertion made gives back the schedule as it was
/// before the insertion: numbers are never handed out twice, so no other subscriber
/// shares its number.
pub proof fn lemma_remove_undoes_insert<T>(
    before: Seq<(u128, Option<EventId>, T)>,
    next: u128,
    filter: Option<EventId>,
    sub: T,
)
    requires
        forall|i: int| 0 <= i < before.len() ==> before[i].0 < next,
    ensures
        without_id(before.push((next, filter, sub)), next) == before,
{
    lemma_without_absent(before, next);
    assert(before.push((next, filter, sub)).drop_last() =~= before);
}

} // verus!
