//! The shell ladder: the walk over (level counter, ladder index) pairs that
//! visits subshells in Madelung order (by increasing level + azimuthal index,
//! lower level first on ties).
use vstd::prelude::*;

verus! {

/// The step after `(diagonal, rung)`: down the current diagonal, or onto the
/// top of the next one once the `s` rung is reached.
pub open spec fn next_step(step: (nat, nat)) -> (nat, nat) {
    if step.1 <= 1 {
        (step.0 + 1, (step.0 + 2) / 2)
    } else {
        (step.0, (step.1 - 1) as nat)
    }
}

/// The ladder position `(diagonal, rung)` at step `k`; the walk starts at `(1, 1)`.
pub open spec fn step_at(k: nat) -> (nat, nat)
    decreases k,
{
    if k == 0 {
        (1, 1)
    } else {
        next_step(step_at((k - 1) as nat))
    }
}

/// Azimuthal index of the subshell filled at step `k`.
pub open spec fn az_at(k: nat) -> nat {
    (step_at(k).1 - 1) as nat
}

/// Principal level of the subshell filled at step `k`.
pub open spec fn level_at(k: nat) -> nat {
    (step_at(k).0 + 1 - step_at(k).1) as nat
}

/// The highest rung reached over steps `0..=k`.
pub open spec fn highest_rung(k: nat) -> nat
    decreases k,
{
    if k == 0 {
        step_at(0).1
    } else if highest_rung((k - 1) as nat) < step_at(k).1 {
        step_at(k).1
    } else {
        highest_rung((k - 1) as nat)
    }
}

/// Every ladder position has a rung between 1 and the top of its diagonal.
pub proof fn lemma_step_bounds(k: nat)
    ensures
        1 <= step_at(k).1,
        2 * step_at(k).1 <= step_at(k).0 + 1,
    decreases k,
{
    if k > 0 {
        lemma_step_bounds((k - 1) as nat);
    }
}

/// The diagonal never goes back.
pub proof fn lemma_diagonal_monotonic(i: nat, k: nat)
    requires
        i <= k,
    ensures
        step_at(i).0 <= step_at(k).0,
    decreases k - i,
{
    if i < k {
        lemma_diagonal_monotonic(i, (k - 1) as nat);
    }
}

/// `a` comes before `b` on the ladder: an earlier diagonal, or a higher rung
/// of the same diagonal.
pub open spec fn precedes(a: (nat, nat), b: (nat, nat)) -> bool {
    a.0 < b.0 || (a.0 == b.0 && a.1 > b.1)
}

/// A position that the ladder can stand on: a rung between 1 and the top of
/// its diagonal.
pub open spec fn on_ladder(p: (nat, nat)) -> bool {
    1 <= p.1 && 2 * p.1 <= p.0 + 1
}

proof fn lemma_step_advances(k: nat)
    ensures
        precedes(step_at(k), step_at(k + 1)),
{
    assert(step_at(k + 1) == next_step(step_at(k)));
}

/// Later steps stand further up the ladder order.
pub proof fn lemma_steps_ordered(i: nat, j: nat)
    requires
        i < j,
    ensures
        precedes(step_at(i), step_at(j)),
    decreases j - i,
{
    lemma_step_advances((j - 1) as nat);
    if i + 1 < j {
        lemma_steps_ordered(i, (j - 1) as nat);
    }
}

/// Every position on the ladder up to step `k` is visited by one of the steps `0..=k`.
pub proof fn lemma_step_reached(k: nat, p: (nat, nat))
    requires
        on_ladder(p),
        !precedes(step_at(k), p),
    ensures
        exists|i: nat| i <= k && step_at(i) == p,
    decreases k,
{
    if step_at(k) == p {
        assert(step_at(k) == p);
    } else if k == 0 {
        assert(false);
    } else {
        let q = step_at((k - 1) as nat);
        lemma_step_bounds((k - 1) as nat);
        assert(step_at(k) == next_step(q));
        assert(!precedes(q, p));
        lemma_step_reached((k - 1) as nat, p);
        let i = choose|i: nat| i <= (k - 1) as nat && step_at(i) == p;
        assert(i <= k && step_at(i) == p);
    }
}

} // verus!
