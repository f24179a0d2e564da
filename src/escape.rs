//! The escape-time evaluator, over an abstract orbit.
//!
//! The orbit `z_0 = start`, `z_{n+1} = step(z_n)` and the escape test are
//! supplied by the caller as closures, so that the loop and its contract do
//! not depend on how points are represented.
use vstd::prelude::*;

verus! {

/// `escaped` and `step` can be called on every point and are functions: the
/// same point always gives the same answer.
pub open spec fn is_dynamics<Z, E: Fn(Z) -> bool, S: Fn(Z) -> Z>(escaped: E, step: S) -> bool {
    &&& forall|z: Z| #[trigger] escaped.requires((z,))
    &&& forall|z: Z| #[trigger] step.requires((z,))
    &&& forall|z: Z, a: bool, b: bool|
        #[trigger] escaped.ensures((z,), a) && #[trigger] escaped.ensures((z,), b) ==> a == b
    &&& forall|z: Z, a: Z, b: Z|
        #[trigger] step.ensures((z,), a) && #[trigger] step.ensures((z,), b) ==> a == b
}

/// The point that `step` maps `z` to.
pub open spec fn next<Z, S: Fn(Z) -> Z>(step: S, z: Z) -> Z {
    choose|n: Z| step.ensures((z,), n)
}

/// The `k`-th point of the orbit that starts at `start`.
pub open spec fn orbit<Z, S: Fn(Z) -> Z>(start: Z, step: S, k: nat) -> Z
    decreases k,
{
    if k == 0 {
        start
    } else {
        next(step, orbit(start, step, (k - 1) as nat))
    }
}

/// Whether the escape test holds of `z`.
pub open spec fn has_escaped<Z, E: Fn(Z) -> bool>(escaped: E, z: Z) -> bool {
    escaped.ensures((z,), true)
}

/// The outcome of running the orbit for at most `limit` iterations: `Some(i)`
/// for the first `i < limit` at which the orbit has escaped, `None` if it
/// never does within the budget.
pub open spec fn is_escape_time<Z, E: Fn(Z) -> bool, S: Fn(Z) -> Z>(
    start: Z,
    limit: usize,
    escaped: E,
    step: S,
    r: Option<usize>,
) -> bool {
    match r {
        Some(i) => {
            &&& i < limit
            &&& has_escaped(escaped, orbit(start, step, i as nat))
            &&& forall|j: nat| j < i ==> !has_escaped(escaped, #[trigger] orbit(start, step, j))
        },
        None => forall|j: nat| j < limit ==> !has_escaped(escaped, #[trigger] orbit(start, step, j)),
    }
}

/// Runs the orbit from `start` and reports the first iteration below `limit`
/// at which `escaped` holds, or `None` if there is none.
pub fn escape_time_with<Z: Copy, E: Fn(Z) -> bool, S: Fn(Z) -> Z>(
    start: Z,
    limit: usize,
    escaped: E,
    step: S,
) -> (r: Option<usize>)
    requires
        is_dynamics(escaped, step),
    ensures
        is_escape_time(start, limit, escaped, step, r),
{
    let mut z = start;
    let mut i: usize = 0;
    while i < limit
        invariant
            is_dynamics(escaped, step),
            i <= limit,
            z == orbit(start, step, i as nat),
            forall|j: nat| j < i ==> !has_escaped(escaped, #[trigger] orbit(start, step, j)),
        decreases limit - i,
    {
        let out = escaped(z);
        if out {
            return Some(i);
        }
        let n = step(z);
        assert(n == next(step, z));
        z = n;
        i = i + 1;
    }
    None
}

/// An orbit whose first step leaves the start in place never moves.
pub proof fn lemma_fixed_point_orbit<Z, S: Fn(Z) -> Z>(start: Z, step: S, k: nat)
    requires
        next(step, start) == start,
    ensures
        orbit(start, step, k) == start,
    decreases k,
{
    if k > 0 {
        lemma_fixed_point_orbit(start, step, (k - 1) as nat);
    }
}

/// A start point that is left in place by the step and does not pass the
/// escape test is reported as bounded, whatever the budget.
pub proof fn lemma_fixed_point_is_bounded<Z, E: Fn(Z) -> bool, S: Fn(Z) -> Z>(
    start: Z,
    limit: usize,
    escaped: E,
    step: S,
    r: Option<usize>,
)
    requires
        next(step, start) == start,
        !has_escaped(escaped, start),
        is_escape_time(start, limit, escaped, step, r),
    ensures
        r is None,
{
    if let Some(i) = r {
        lemma_fixed_point_orbit(start, step, i as nat);
    }
}

} // verus!
