use kokoro::context::{Disposals, Root};
use kokoro::disposable::{dispose, Disposable, DisposableCache, DisposableHandle};
use kokoro::event::{event_is, Event, EventID, EventId, PhantomEvent};
use std::collections::hash_map::DefaultHasher;
use std::hash::{Hash, Hasher};
use kokoro::query::{EventQuery, Query};
use kokoro::schedule::{subscribes, Schedule};
use kokoro::scope::{ScopeId, ScopeIdGen, StepCounter};
use kokoro::thread::SignalHandle;
use std::sync::atomic::{AtomicUsize, Ordering};
use std::sync::Arc;

struct Ping;
impl Event for Ping {
    fn event_id(&self) -> EventId {
        EventId(42)
    }
}
impl EventID for Ping {
    const _EVENT_ID: u64 = 42;
}

#[test]
fn phantom_event_has_id_zero() {
    assert_eq!(PhantomEvent.event_id(), EventId(0));
    assert_eq!(<PhantomEvent as EventID>::_EVENT_ID, 0);
}

#[test]
fn is_compares_identifiers() {
    let p: &dyn Event = &Ping;
    assert!(p.is::<Ping>());
    assert!(!p.is::<PhantomEvent>());
    let z: &dyn Event = &PhantomEvent;
    assert!(z.is::<PhantomEvent>());
}

#[test]
fn event_query_subscribes_to_its_event() {
    assert!(<EventQuery<Ping> as Query<Ping>>::sub(&Ping));
    assert!(!<EventQuery<Ping> as Query<Ping>>::sub(&PhantomEvent));
    let q = <EventQuery<Ping> as Query<Ping>>::create(Arc::new(Ping));
    assert_eq!(q.event_id(), EventId(42));
}

#[test]
fn schedule_insert_trigger_remove() {
    let mut s: Schedule<&str> = Schedule::new();
    let a = s.insert(None, "all");
    let b = s.insert(Some(EventId(42)), "ping");
    let c = s.insert(Some(EventId(7)), "other");
    assert_eq!((a.number(), b.number(), c.number()), (0, 1, 2));
    assert_eq!(s.trigger(&Ping), vec![0, 1]);
    assert_eq!(s.trigger(&PhantomEvent), vec![0]);
    assert_eq!(s.remove(&b), Some("ping"));
    assert_eq!(s.remove(&b), None);
    assert_eq!(s.trigger(&Ping), vec![0]);
    let d = s.insert(Some(EventId(42)), "again");
    assert_eq!(d.number(), 3);
    assert_eq!(s.trigger(&Ping), vec![0, 3]);
    *s.get_mut(3).unwrap() = "changed";
    assert_eq!(s.remove(&d), Some("changed"));
    assert!(s.get_mut(1).is_none());
}

#[test]
fn remove_undoes_insert() {
    let mut s: Schedule<u8> = Schedule::new();
    s.insert(None, 1);
    let before = s.trigger(&PhantomEvent);
    let h = s.insert(None, 2);
    assert_eq!(s.remove(&h), Some(2));
    assert_eq!(s.trigger(&PhantomEvent), before);
}

#[test]
fn subscribes_by_filter() {
    assert!(subscribes(None, &Ping));
    assert!(subscribes(Some(EventId(42)), &Ping));
    assert!(!subscribes(Some(EventId(0)), &Ping));
}

#[test]
fn signal_runs_until_done_then_stops_once() {
    let mut s = SignalHandle::new();
    assert_eq!(s.next(), Some(false));
    assert_eq!(s.next(), Some(false));
    s.done();
    assert_eq!(s.next(), Some(true));
    assert_eq!(s.next(), None);
    s.done();
    assert_eq!(s.next(), None);
}

#[test]
fn scope_ids_are_sequential_and_distinct() {
    let mut g = ScopeIdGen::sequential();
    let a = g.next("a");
    let b = g.next("b");
    let c = g.next("a");
    assert_eq!((a.pre_id(), b.pre_id(), c.pre_id()), (0, 1, 2));
    assert!(a != c && a != b);
    assert_eq!(a.name(), "a");
    let mut w = ScopeIdGen::new(StepCounter::new(u64::MAX, 1));
    assert_eq!(w.next("x").pre_id(), u64::MAX);
    assert_eq!(w.next("x").pre_id(), 0);
}

#[test]
fn scope_id_equality_ignores_the_name() {
    assert!(ScopeId::new("a", 1) == ScopeId::new("b", 1));
    assert!(ScopeId::new("a", 1) != ScopeId::new("a", 2));
    let c = ScopeId::new("n", 9).clone();
    assert_eq!((c.name(), c.pre_id()), ("n", 9));
}

#[test]
fn step_counter_steps_and_wraps() {
    let mut c = StepCounter::new(10, 5);
    assert_eq!(c.next_u64(), 10);
    assert_eq!(c.next_u64(), 15);
    let mut w = StepCounter::new(u64::MAX - 1, 3);
    assert_eq!(w.next_u64(), u64::MAX - 1);
    assert_eq!(w.next_u64(), 1);
}

struct Counter(Arc<AtomicUsize>, usize);
impl Disposable for Counter {
    fn dispose(&mut self) {
        let seen = self.0.fetch_add(1, Ordering::SeqCst);
        self.1 = seen;
    }
}

struct Order(Arc<std::sync::Mutex<Vec<u8>>>, u8);
impl Disposable for Order {
    fn dispose(&mut self) {
        self.0.lock().unwrap().push(self.1);
    }
}

#[test]
fn disposals_run_last_added_first() {
    let log = Arc::new(std::sync::Mutex::new(Vec::new()));
    let mut d = Disposals::new();
    for i in 0..3u8 {
        d.add_disposable(Order(log.clone(), i));
    }
    assert_eq!(d.len(), 3);
    d.dispose();
    assert_eq!(d.len(), 0);
    assert_eq!(*log.lock().unwrap(), vec![2, 1, 0]);
}

#[test]
fn handles_and_caches_dispose_their_value() {
    let n = Arc::new(AtomicUsize::new(0));
    let mut h = DisposableHandle::new(Counter(n.clone(), 0));
    h.dispose();
    assert_eq!(n.load(Ordering::SeqCst), 1);
    let mut c = DisposableCache::warp(Counter(n.clone(), 0));
    c.dispose();
    dispose(DisposableHandle::new(Counter(n.clone(), 0)));
    assert_eq!(n.load(Ordering::SeqCst), 3);
    let inner = DisposableHandle::new(Counter(n.clone(), 7)).into_inner();
    assert_eq!(inner.1, 7);
}

#[test]
fn root_default() {
    let _r: Root = Root::default();
}

#[test]
fn scope_id_hashes_number_then_name_bytes() {
    let id = ScopeId::new("plugin", 7);
    let mut a = DefaultHasher::new();
    id.hash(&mut a);
    let mut b = DefaultHasher::new();
    b.write_u64(7);
    b.write(b"plugin");
    assert_eq!(a.finish(), b.finish());
}

#[test]
fn event_is_on_concrete_events() {
    assert!(event_is::<_, PhantomEvent>(&PhantomEvent));
    assert!(!event_is::<_, Ping>(&PhantomEvent));
    assert!(event_is::<_, Ping>(&Ping));
    let p: &dyn Event = &Ping;
    assert!(event_is::<_, Ping>(p));
}
