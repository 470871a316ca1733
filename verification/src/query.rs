//! Queries: how a subscriber names the event it wants.
use vstd::prelude::*;
use std::ops::Deref;
use std::sync::Arc;
use crate::event::{Event, EventID};

verus! {

/// A way of receiving events of type `T`.
pub trait Query<T: EventID>: Deref<Target = T> + Sized {
    /// Wraps a published event.
    fn create(n: Arc<T>) -> Self;

    /// Whether an event is one that this query receives.
    fn sub(n: &dyn Event) -> bool;
}

/// Receives the events of type `E`.
pub struct EventQuery<E: Event> {
    e: Arc<E>,
}

impl<E: Event> EventQuery<E> {
    /// The event held by the query.
    pub closed spec fn event(&self) -> E {
        *self.e
    }
}

impl<E: Event> Deref for EventQuery<E> {
    type Target = E;

    fn deref(&self) -> (r: &E)
        ensures
            *r == self.event(),
    {
        &*self.e
    }
}

impl<E: Event + EventID> Query<E> for EventQuery<E> {
    fn create(n: Arc<E>) -> (q: Self)
        ensures
            q.event() == *n,
    {
        EventQuery { e: n }
    }

    fn sub(n: &dyn Event) -> (b: bool)
        ensures
            b == (n.event_id_spec().0 == E::_EVENT_ID),
    {
        n.is::<E>()
    }
}

} // verus!
