//! What can be disposed of.
use vstd::prelude::*;

verus! {

/// What can be disposed of; such values can be shared between threads.
pub trait Disposable: Send + Sync {
    /// It has been disposed of.
    open spec fn disposed(&self) -> bool {
        arbitrary()
    }

    /// Dispose of it.
    fn dispose(&mut self)
        ensures
            final(self).disposed(),
    ;
}

/// Wraps what can be disposed of.
pub struct DisposableHandle<D: Disposable>(D);

impl<D: Disposable> DisposableHandle<D> {
    /// The wrapped value.
    pub closed spec fn inner(&self) -> D {
        self.0
    }

    /// Wraps `disposable`.
    pub fn new(disposable: D) -> (h: Self)
        ensures
            h.inner() == disposable,
    {
        DisposableHandle(disposable)
    }

    /// Unwraps the value without disposing of it.
    pub fn into_inner(self) -> (d: D)
        ensures
            d == self.inner(),
    {
        self.0
    }
}

impl<D: Disposable> Disposable for DisposableHandle<D> {
    /// The wrapped value has been disposed of.
    closed spec fn disposed(&self) -> bool {
        self.0.disposed()
    }

    /// Disposes of the wrapped value.
    fn dispose(&mut self)
        ensures
            final(self).inner().disposed(),
    {
        self.0.dispose()
    }
}

/// Holds any disposable value, its type erased, with a ghost tag by which a holder can
/// tell its caches apart.
pub struct DisposableCache {
    item: Box<dyn Disposable>,
    tag: Ghost<nat>,
}

impl DisposableCache {
    /// The value held has been disposed of.
    pub closed spec fn held_disposed(&self) -> bool {
        self.item.disposed()
    }

    /// The tag of the cache: `0` when made, set by [`DisposableCache::with_tag`], and
    /// kept by disposal.
    pub closed spec fn tag(&self) -> nat {
        self.tag@
    }

    /// The same cache, holding the same value, with tag `tag`.
    pub(crate) fn with_tag(self, tag: Ghost<nat>) -> (c: Self)
        ensures
            c.tag() == tag@,
            c.held_disposed() == self.held_disposed(),
    {
        let mut c = self;
        c.tag = tag;
        c
    }

    /// Erases the type of `disposable`: the cache holds that value, and is disposed of
    /// exactly when it is.
    pub fn warp<D: Disposable + 'static>(disposable: D) -> (c: Self)
        ensures
            c.held_disposed() == disposable.disposed(),
            c.disposed() == disposable.disposed(),
            c.tag() == 0,
    {
        let mut c = erase(disposable);
        c.tag = Ghost(0);
        c
    }
}

/// Boxes `disposable` as a trait object (`Box::new`, then the unsizing coercion to
/// `Box<dyn Disposable>`) and holds it.
///
/// Trusted: calls on the trait object are dispatched to the very value that was boxed,
/// so what is held is disposed of exactly when that value is. Verus does not model the
/// coercion to a trait object, so this is stated, not proved.
#[verifier::external_body]
fn erase<D: Disposable + 'static>(disposable: D) -> (c: DisposableCache)
    ensures
        c.held_disposed() == disposable.disposed(),
{
    DisposableCache { item: Box::new(disposable), tag: Ghost(0) }
}

impl Disposable for DisposableCache {
    /// The value held has been disposed of.
    closed spec fn disposed(&self) -> bool {
        self.held_disposed()
    }

    /// Disposes of the value held.
    fn dispose(&mut self)
        ensures
            final(self).held_disposed(),
            final(self).tag() == old(self).tag(),
    {
        self.item.dispose();
    }
}

/// Disposes of `disposable`, then drops it.
pub fn dispose<D: Disposable>(disposable: D) {
    let mut disposable = disposable;
    disposable.dispose();
}

} // verus!
