//! Identifiers of scopes, and the generator that hands them out to plugins.
use vstd::prelude::*;

verus! {

/// Marks a scope: the name of what it holds and a number.
///
/// Its hash is its number followed by the bytes of its name.
#[derive(Debug)]
pub struct ScopeId {
    name: &'static str,
    pre_id: u64,
}

impl ScopeId {
    /// The name of the identifier.
    pub closed spec fn name_spec(&self) -> Seq<char> {
        self.name@
    }

    /// The number of the identifier.
    pub closed spec fn number(&self) -> u64 {
        self.pre_id
    }

    /// Create a new identifier.
    pub fn new(name: &'static str, id: u64) -> (s: Self)
        ensures
            s.name_spec() == name@,
            s.number() == id,
    {
        ScopeId { name, pre_id: id }
    }

    /// The name of the identifier.
    pub fn name(&self) -> (n: &'static str)
        ensures
            n@ == self.name_spec(),
    {
        self.name
    }

    /// The number of the identifier.
    pub fn pre_id(&self) -> (n: u64)
        ensures
            n == self.number(),
    {
        self.pre_id
    }
}

/// Feeds `n` to `state` (`Hasher::write_u64`).
#[verifier::external_body]
fn hasher_write_u64<H: std::hash::Hasher>(state: &mut H, n: u64) {
    state.write_u64(n)
}

/// Feeds `bytes` to `state` (`Hasher::write`).
#[verifier::external_body]
fn hasher_write<H: std::hash::Hasher>(state: &mut H, bytes: &[u8]) {
    state.write(bytes)
}

impl std::hash::Hash for ScopeId {
    fn hash<H: std::hash::Hasher>(&self, state: &mut H) {
        hasher_write_u64(state, self.pre_id);
        hasher_write(state, self.name.as_bytes());
    }
}

impl Clone for ScopeId {
    fn clone(&self) -> (c: Self)
        ensures
            c.name_spec() == self.name_spec(),
            c.number() == self.number(),
    {
        ScopeId { name: self.name, pre_id: self.pre_id }
    }
}

impl PartialEq for ScopeId {
    fn eq(&self, other: &Self) -> (r: bool) {
        self.pre_id == other.pre_id
    }
}

impl vstd::std_specs::cmp::PartialEqSpecImpl for ScopeId {
    open spec fn obeys_eq_spec() -> bool {
        true
    }

    /// Two identifiers are equal when their numbers are: the name takes no part.
    open spec fn eq_spec(&self, other: &Self) -> bool {
        self.number() == other.number()
    }
}

impl Eq for ScopeId {
}

/// An arithmetic sequence of `u64` numbers: starts at `initial` and adds `increment`
/// each step, wrapping around.
#[derive(Debug, Clone)]
pub struct StepCounter {
    v: u64,
    a: u64,
}

impl StepCounter {
    /// The next number that will be handed out.
    pub closed spec fn current(&self) -> u64 {
        self.v
    }

    /// The step between numbers.
    pub closed spec fn increment(&self) -> u64 {
        self.a
    }

    /// The sequence that starts at `initial` with step `increment`.
    pub fn new(initial: u64, increment: u64) -> (c: Self)
        ensures
            c.current() == initial,
            c.increment() == increment,
    {
        StepCounter { v: initial, a: increment }
    }

    /// Hands out the current number and steps forward.
    pub fn next_u64(&mut self) -> (r: u64)
        ensures
            r == old(self).current(),
            final(self).current() == (old(self).current() + old(self).increment()) % 0x1_0000_0000_0000_0000,
            final(self).increment() == old(self).increment(),
    {
        let result = self.v;
        self.v = self.v.wrapping_add(self.a);
        result
    }
}

/// Generates consecutive scope identifiers that do not repeat.
#[derive(Debug)]
pub struct ScopeIdGen {
    rand: StepCounter,
}

impl ScopeIdGen {
    /// The numbers still to be handed out.
    pub closed spec fn counter(&self) -> StepCounter {
        self.rand
    }

    /// Create a generator drawing its numbers from `rand`.
    pub fn new(rand: StepCounter) -> (g: Self)
        ensures
            g.counter() == rand,
    {
        ScopeIdGen { rand }
    }

    /// The generator that plugins use: numbers 0, 1, 2, ...
    pub fn sequential() -> (g: Self)
        ensures
            g.counter().current() == 0,
            g.counter().increment() == 1,
    {
        ScopeIdGen::new(StepCounter::new(0, 1))
    }

    /// A new identifier named `name`, numbered with the next number of the counter.
    pub fn next(&mut self, name: &'static str) -> (id: ScopeId)
        ensures
            id.name_spec() == name@,
            id.number() == old(self).counter().current(),
            final(self).counter().current() == (old(self).counter().current() + old(
                self,
            ).counter().increment()) % 0x1_0000_0000_0000_0000,
            final(self).counter().increment() == old(self).counter().increment(),
    {
        let num = self.rand.next_u64();
        ScopeId::new(name, num)
    }
}

/// The number handed out by a generator with step 1 after `k` calls that started at
/// number `start`.
pub open spec fn nth_number(start: u64, k: nat) -> u64 {
    ((start + k) % 0x1_0000_0000_0000_0000) as u64
}

/// A generator with step 1 hands out `start`, `start + 1`, ... : after `k` calls its
/// counter is at `start + k`, so identifiers made by fewer than 2^64 calls never repeat.
pub proof fn lemma_sequential_ids_distinct(start: u64, j: nat, k: nat)
    requires
        j < k < 0x1_0000_0000_0000_0000,
    ensures
        nth_number(start, j) != nth_number(start, k),
{
    assert(((start + j) % 0x1_0000_0000_0000_0000) != ((start + k) % 0x1_0000_0000_0000_0000)) by (nonlinear_arith)
        requires
            j < k < 0x1_0000_0000_0000_0000,
            0 <= start < 0x1_0000_0000_0000_0000,
    ;
}

/// One call of `next` on a generator with step 1 moves its counter from the `k`-th
/// number to the `k + 1`-th.
pub proof fn lemma_sequential_step(start: u64, k: nat)
    ensures
        (nth_number(start, k) + 1) % 0x1_0000_0000_0000_0000 == nth_number(start, k + 1),
{
    assert((((start + k) % 0x1_0000_0000_0000_0000) + 1) % 0x1_0000_0000_0000_0000 == (start + k + 1) % 0x1_0000_0000_0000_0000) by (nonlinear_arith);
}

} // verus!
