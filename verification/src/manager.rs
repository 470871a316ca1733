//! Managers of component instances keep a stack of deferred bindings and make them all
//! at once.
use vstd::prelude::*;
use crate::later::{host_parse, lemma_host_parse_rejects_every_input, CommonLater, LaterError, LaterFunc};

verus! {

/// A binding that is made later, once the instance that provides it is known to the
/// manager `M`.
pub trait Later<M>: Sized {
    /// What making the binding may do: take the manager from `before` to `after` and
    /// give `r`.
    open spec fn init_ensures(&self, before: M, after: M, r: Result<(), LaterError>) -> bool {
        arbitrary()
    }

    /// Makes the binding.
    fn init(self, manager: &mut M) -> (r: Result<(), LaterError>)
        ensures
            self.init_ensures(*old(manager), *final(manager), r),
    ;
}

impl LaterFunc {
    /// Makes the binding of a function import. The import's host must be named by the
    /// first path element; since the host grammar accepts no text (see
    /// [`lemma_host_parse_rejects_every_input`]), this never gets past naming the host:
    /// an empty path gives [`LaterError::MissingInstanceName`], any other path
    /// [`LaterError::HostParse`] with its first element.
    pub fn init<M>(self, manager: &mut M) -> (r: Result<(), LaterError>)
        ensures
            *final(manager) == *old(manager),
            self.path@.len() == 0 ==> r matches Err(LaterError::MissingInstanceName),
            self.path@.len() > 0 ==> (r matches Err(LaterError::HostParse(m)) && m@
                == self.path@[0]@),
    {
        match self.resolve() {
            Err(e) => {
                proof {
                    if self.path@.len() > 0 {
                        lemma_host_parse_rejects_every_input(self.path@[0]@);
                    }
                }
                Err(e)
            },
            Ok(_target) => {
                proof {
                    lemma_host_parse_rejects_every_input(self.path@[0]@);
                    assert(host_parse(self.path@[0]@) is None);
                }
                Err(LaterError::MissingInstanceName)
            },
        }
    }
}

impl<M> Later<M> for CommonLater {
    /// The manager is left as it was; an empty path gives
    /// [`LaterError::MissingInstanceName`], any other path [`LaterError::HostParse`]
    /// with its first element.
    open spec fn init_ensures(&self, before: M, after: M, r: Result<(), LaterError>) -> bool {
        &&& after == before
        &&& self.path_spec().len() == 0 ==> r is Err && r->Err_0 is MissingInstanceName
        &&& self.path_spec().len() > 0 ==> match r {
            Err(LaterError::HostParse(m)) => m@ == self.path_spec()[0]@,
            _ => false,
        }
    }

    fn init(self, manager: &mut M) -> (r: Result<(), LaterError>)
        ensures
            *final(manager) == *old(manager),
            self.path_spec().len() == 0 ==> r matches Err(LaterError::MissingInstanceName),
            self.path_spec().len() > 0 ==> (r matches Err(LaterError::HostParse(m)) && m@
                == self.path_spec()[0]@),
    {
        match self {
            CommonLater::Func(later) => later.init(manager),
        }
    }
}

/// A run of `init_all_laters` over `laters`: the last `k` bindings were tried, the last
/// first, the `j`-th taking the manager from `ms[j]` to `ms[j + 1]` and giving `rs[j]`;
/// all but the last tried succeeded, the untried bindings are `rest`, and the result is
/// the error of the last tried if it failed, `Ok` when every binding was tried and
/// succeeded.
pub open spec fn laters_run<M, L: Later<M>>(
    laters: Seq<L>,
    ms: Seq<M>,
    rs: Seq<Result<(), LaterError>>,
    rest: Seq<L>,
    r: Result<(), LaterError>,
) -> bool {
    let n = laters.len();
    let k = rs.len();
    &&& k <= n
    &&& ms.len() == k + 1
    &&& rest == laters.take(n - k)
    &&& forall|j: int| 0 <= j < k ==> #[trigger] laters[n - 1 - j].init_ensures(ms[j], ms[j + 1], rs[j])
    &&& forall|j: int| 0 <= j < k - 1 ==> #[trigger] rs[j] is Ok
    &&& if k > 0 && rs[k - 1] is Err {
        r == rs[k - 1]
    } else {
        k == n && r is Ok
    }
}

/// Makes the deferred bindings from the last to the first, removing each from `laters`
/// before making it, and stops at the first that fails, giving its error. On success
/// `laters` is empty; on failure it holds the bindings that were not tried, in their
/// order.
pub fn init_all_laters<M, L: Later<M>>(laters: &mut Vec<L>, manager: &mut M) -> (r: Result<(), LaterError>)
    ensures
        exists|ms: Seq<M>, rs: Seq<Result<(), LaterError>>|
            #[trigger] laters_run(old(laters)@, ms, rs, final(laters)@, r) && ms[0] == *old(manager)
                && ms.last() == *final(manager),
        r is Ok ==> final(laters)@.len() == 0,
        r is Err ==> final(laters)@.len() < old(laters)@.len() && final(laters)@ == old(laters)@.take(
            final(laters)@.len() as int,
        ),
{
    let ghost start = laters@;
    let ghost mut ms: Seq<M> = seq![*manager];
    let ghost mut rs: Seq<Result<(), LaterError>> = seq![];
    while laters.len() > 0
        invariant
            start == old(laters)@,
            laters@.len() <= start.len(),
            laters@ == start.take(laters@.len() as int),
            rs.len() == start.len() - laters@.len(),
            ms.len() == rs.len() + 1,
            ms[0] == *old(manager),
            ms.last() == *manager,
            forall|j: int| 0 <= j < rs.len() ==> #[trigger] start[start.len() - 1 - j].init_ensures(ms[j], ms[j + 1], rs[j]),
            forall|j: int| 0 <= j < rs.len() ==> #[trigger] rs[j] is Ok,
        decreases laters@.len(),
    {
        let ghost before = *manager;
        let ghost idx = laters@.len() - 1;
        let later = laters.pop().unwrap();
        assert(later == start[idx]);
        assert(laters@ =~= start.take(idx));
        let res = later.init(manager);
        proof {
            ms = ms.push(*manager);
            rs = rs.push(res);
            assert(start.len() - 1 - (rs.len() - 1) == idx);
        }
        match res {
            Ok(()) => {},
            Err(e) => {
                proof {
                    assert(laters_run(start, ms, rs, laters@, Err(e)));
                }
                return Err(e);
            },
        }
    }
    proof {
        assert(laters@ =~= start.take(0));
        assert(laters_run(start, ms, rs, laters@, Ok(())));
    }
    Ok(())
}

} // verus!
