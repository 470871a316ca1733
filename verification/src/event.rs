//! Events that can be published, and their identifiers.
use vstd::prelude::*;

verus! {

/// The identifier of an event type.
#[derive(Clone, Copy, PartialEq, Eq, Structural, Hash, Debug)]
pub struct EventId(pub u64);

/// Events that can be published.
pub trait Event: 'static {
    /// The identifier of this event's type.
    open spec fn event_id_spec(&self) -> EventId {
        arbitrary()
    }

    /// Gets the identifier of the event.
    fn event_id(&self) -> (id: EventId)
        ensures
            id == self.event_id_spec(),
    ;
}

/// The identifier of an event type, known without a value of it.
pub trait EventID {
    /// The identifier, as the number inside an [`EventId`].
    const _EVENT_ID: u64;
}

impl dyn Event {
    /// The event is of type `T`: its identifier is `T`'s.
    pub fn is<T: EventID>(&self) -> (b: bool)
        ensures
            b == (self.event_id_spec().0 == T::_EVENT_ID),
    {
        let id = self.event_id();
        id.0 == T::_EVENT_ID
    }
}

/// `e` is of type `T`: its identifier is `T`'s. Unlike `is` on `dyn Event`, this works on
/// any event type, so verified callers can apply it to a concrete event too.
pub fn event_is<E: Event + ?Sized, T: EventID>(e: &E) -> (b: bool)
    ensures
        b == (e.event_id_spec().0 == T::_EVENT_ID),
{
    let id = e.event_id();
    id.0 == T::_EVENT_ID
}

/// An event that carries nothing, used to run the subscribers that subscribe to no
/// particular event.
#[derive(Clone, Copy, Debug)]
pub struct PhantomEvent;

impl Event for PhantomEvent {
    open spec fn event_id_spec(&self) -> EventId {
        EventId(0)
    }

    fn event_id(&self) -> (id: EventId) {
        EventId(0)
    }
}

impl EventID for PhantomEvent {
    const _EVENT_ID: u64 = 0;
}

/// What can publish events of type `E`.
pub trait Publishable<E> {
    /// Publish an event.
    fn publish(&self, e: E);
}

} // verus!
