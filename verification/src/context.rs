//! The disposals of a context, and the resource of the root scope.
use vstd::prelude::*;
use crate::disposable::{Disposable, DisposableCache};

verus! {

/// The resource of the root scope: it holds nothing.
#[derive(Debug)]
pub struct Root {}

impl Default for Root {
    fn default() -> (r: Self)
        ensures
            r == (Root {}),
    {
        Root {}
    }
}

/// What a context disposes of when it is disposed of, in the order they were added.
pub struct Disposals {
    items: Vec<DisposableCache>,
    added: Ghost<nat>,
    log: Ghost<Seq<(nat, DisposableCache)>>,
}

impl Disposals {
    /// The number of values waiting to be disposed of.
    pub closed spec fn pending(&self) -> nat {
        self.items@.len()
    }

    /// The values waiting to be disposed of, in the order they were added.
    pub closed spec fn pending_items(&self) -> Seq<DisposableCache> {
        self.items@
    }

    /// The registration numbers of the values waiting to be disposed of, in the order
    /// they were added: the `k`-th value ever added has number `k`, which is also the tag
    /// of its cache.
    pub closed spec fn pending_numbers(&self) -> Seq<nat> {
        self.items@.map_values(|c: DisposableCache| c.tag())
    }

    /// How many values have ever been added.
    pub closed spec fn added(&self) -> nat {
        self.added@
    }

    /// The values disposed of so far, in the order they were disposed of: each with its
    /// registration number, as it was after being disposed of.
    pub closed spec fn disposed_log(&self) -> Seq<(nat, DisposableCache)> {
        self.log@
    }

    /// Nothing to dispose of.
    pub fn new() -> (d: Self)
        ensures
            d.pending() == 0,
            d.added() == 0,
            d.disposed_log() == Seq::<(nat, DisposableCache)>::empty(),
    {
        Disposals { items: Vec::new(), added: Ghost(0), log: Ghost(Seq::empty()) }
    }

    /// Adds a value to dispose of: it comes last, with the next registration number, and
    /// its cache holds that value.
    pub fn add_disposable<D: Disposable + 'static>(&mut self, disposable: D)
        ensures
            final(self).pending() == old(self).pending() + 1,
            final(self).pending_items().drop_last() == old(self).pending_items(),
            final(self).pending_items().last().held_disposed() == disposable.disposed(),
            final(self).pending_items().last().tag() == old(self).added(),
            final(self).pending_numbers() == old(self).pending_numbers().push(old(self).added()),
            final(self).added() == old(self).added() + 1,
            final(self).disposed_log() == old(self).disposed_log(),
    {
        let ghost number = self.added@;
        let cache = DisposableCache::warp(disposable).with_tag(Ghost(number));
        let ghost before = self.items@;
        self.items.push(cache);
        proof {
            self.added = Ghost(number + 1);
            assert(self.items@.drop_last() =~= before);
            assert(self.pending_numbers() =~= before.map_values(|c: DisposableCache| c.tag()).push(number));
        }
    }

    /// The number of values waiting to be disposed of.
    pub fn len(&self) -> (n: usize)
        ensures
            n == self.pending(),
    {
        self.items.len()
    }
}

impl Disposable for Disposals {
    /// Nothing is left to dispose of.
    closed spec fn disposed(&self) -> bool {
        self.pending() == 0
    }

    /// Disposes of every value, the last added first, until none is left: the log grows
    /// by one entry per pending value, in reverse order of addition, each entry being the
    /// cache registered under that number (the one with that tag) after it was disposed
    /// of.
    fn dispose(&mut self)
        ensures
            final(self).pending() == 0,
            final(self).added() == old(self).added(),
            final(self).disposed_log().len() == old(self).disposed_log().len() + old(self).pending(),
            final(self).disposed_log().take(old(self).disposed_log().len() as int) == old(self).disposed_log(),
            forall|i: int|
                0 <= i < old(self).pending() ==> {
                    let entry = #[trigger] final(self).disposed_log()[old(self).disposed_log().len() + i];
                    &&& entry.0 == old(self).pending_numbers()[old(self).pending() - 1 - i]
                    &&& entry.1.tag() == old(self).pending_items()[old(self).pending() - 1 - i].tag()
                    &&& entry.1.disposed()
                    &&& entry.1.held_disposed()
                },
    {
        let ghost start_items = self.items@;
        let ghost start_log = self.log@;
        let ghost n = start_items.len();
        while self.items.len() > 0
            invariant
                self.items@ == start_items.take(self.items@.len() as int),
                self.items@.len() <= n,
                n == start_items.len(),
                self.added@ == old(self).added(),
                start_items == old(self).items@,
                start_log == old(self).log@,
                self.log@.len() == start_log.len() + (n - self.items@.len()),
                self.log@.take(start_log.len() as int) == start_log,
                forall|i: int|
                    0 <= i < n - self.items@.len() ==> {
                        let entry = #[trigger] self.log@[start_log.len() + i];
                        &&& entry.0 == start_items[n - 1 - i].tag()
                        &&& entry.1.tag() == start_items[n - 1 - i].tag()
                        &&& entry.1.disposed()
                        &&& entry.1.held_disposed()
                    },
            decreases self.items@.len(),
        {
            let ghost idx = self.items@.len() - 1;
            let cache = self.items.pop().unwrap();
            assert(cache == start_items[idx]);
            assert(self.items@ =~= start_items.take(idx));
            let ghost number = cache.tag();
            let mut cache = cache;
            cache.dispose();
            let ghost before_log = self.log@;
            proof {
                self.log = Ghost(self.log@.push((number, cache)));
                assert(self.log@.take(start_log.len() as int) =~= before_log.take(start_log.len() as int));
                assert forall|i: int| 0 <= i < n - self.items@.len() implies {
                    let entry = #[trigger] self.log@[start_log.len() + i];
                    &&& entry.0 == start_items[n - 1 - i].tag()
                    &&& entry.1.tag() == start_items[n - 1 - i].tag()
                    &&& entry.1.disposed()
                    &&& entry.1.held_disposed()
                } by {
                    if i < n - self.items@.len() - 1 {
                        assert(self.log@[start_log.len() + i] == before_log[start_log.len() + i]);
                    }
                }
            }
        }
        proof {
            assert forall|i: int| 0 <= i < old(self).pending() implies old(self).pending_numbers()[i] == start_items[i].tag() by {}
        }
    }
}

} // verus!
