//! Health-probe hysteresis: how consecutive probe outcomes move a worker's
//! health flag, damping flapping from transient blips. The monitor only
//! toggles health; it never removes a worker.

use vstd::prelude::*;

verus! {

/// One probe outcome folded into a worker's health state
/// `(healthy, fail_streak, ok_streak)`.
///
/// A healthy worker turns unhealthy only after `ft` consecutive failed
/// probes; an unhealthy one recovers only after `st` consecutive successful
/// probes. Streaks saturate at the machine limit and reset on every
/// transition and on every probe of the opposite kind.
pub open spec fn spec_probe_step(
    healthy: bool,
    fs: u64,
    os: u64,
    success: bool,
    ft: u64,
    st: u64,
) -> (bool, u64, u64) {
    if success {
        let os2 = if os < u64::MAX {
            (os + 1) as u64
        } else {
            u64::MAX
        };
        if !healthy && os2 >= st {
            (true, 0u64, 0u64)
        } else {
            (healthy, 0u64, os2)
        }
    } else {
        let fs2 = if fs < u64::MAX {
            (fs + 1) as u64
        } else {
            u64::MAX
        };
        if healthy && fs2 >= ft {
            (false, 0u64, 0u64)
        } else {
            (healthy, fs2, 0u64)
        }
    }
}

/// A whole sequence of probe outcomes folded into a health state, oldest
/// probe first.
pub open spec fn spec_probe_run(
    h: (bool, u64, u64),
    probes: Seq<bool>,
    ft: u64,
    st: u64,
) -> (bool, u64, u64)
    decreases probes.len(),
{
    if probes.len() == 0 {
        h
    } else {
        let prev = spec_probe_run(h, probes.drop_last(), ft, st);
        spec_probe_step(prev.0, prev.1, prev.2, probes.last(), ft, st)
    }
}

/// Under steady failures the failure streak keeps pace with the probes, so
/// a worker that is still healthy has seen fewer failures than its streak
/// says the threshold allows.
proof fn lemma_failure_run_streak(h: (bool, u64, u64), probes: Seq<bool>, ft: u64, st: u64)
    requires
        forall|i: int| 0 <= i < probes.len() ==> !probes[i],
        probes.len() >= 1,
    ensures
        spec_probe_run(h, probes, ft, st).0 ==> spec_probe_run(h, probes, ft, st).1
            >= probes.len() || spec_probe_run(h, probes, ft, st).1 == u64::MAX,
        spec_probe_run(h, probes, ft, st).0 ==> h.0,
    decreases probes.len(),
{
    assert(!probes.last());
    if probes.len() > 1 {
        lemma_failure_run_streak(h, probes.drop_last(), ft, st);
        assert(forall|i: int|
            0 <= i < probes.len() - 1 ==> probes.drop_last()[i] == probes[i]);
    } else {
        assert(probes.drop_last().len() == 0);
        assert(spec_probe_run(h, probes.drop_last(), ft, st) == h);
    }
}

/// Hysteresis law, downward: whatever its streaks, a worker that fails
/// `failure_threshold` (or more) consecutive probes is unhealthy afterwards.
pub proof fn lemma_failures_force_unhealthy(h: (bool, u64, u64), probes: Seq<bool>, ft: u64, st: u64)
    requires
        1 <= ft,
        probes.len() >= ft,
        forall|i: int| 0 <= i < probes.len() ==> !probes[i],
    ensures
        !spec_probe_run(h, probes, ft, st).0,
{
    let r = spec_probe_run(h, probes, ft, st);
    let prev = spec_probe_run(h, probes.drop_last(), ft, st);
    if r.0 {
        // The final step kept the worker healthy, so its fresh streak is
        // still below the threshold; but the streak has kept pace with the
        // probes, which already number at least the threshold.
        assert(!probes.last());
        assert(r.1 < ft);
        lemma_failure_run_streak(h, probes, ft, st);
        assert(false);
    }
}

/// Under steady successes from a fresh unhealthy state, the state is pinned:
/// still unhealthy with the success streak counting up, until the streak
/// reaches the threshold, after which the worker is healthy.
pub proof fn lemma_recovery_needs_streak(h: (bool, u64, u64), probes: Seq<bool>, ft: u64, st: u64)
    requires
        1 <= st,
        !h.0,
        h.2 == 0,
        forall|i: int| 0 <= i < probes.len() ==> probes[i],
    ensures
        spec_probe_run(h, probes, ft, st).0 <==> probes.len() >= st,
    decreases probes.len(),
{
    if probes.len() > 0 {
        lemma_recovery_needs_streak(h, probes.drop_last(), ft, st);
        assert(forall|i: int|
            0 <= i < probes.len() - 1 ==> probes.drop_last()[i] == probes[i]);
        if probes.len() - 1 < st {
            lemma_recovery_streak_counts(h, probes.drop_last(), ft, st);
        }
        assert(probes.last());
    }
}

/// While the success streak is still short of the threshold, an unhealthy
/// worker stays unhealthy and the streak equals the number of probes seen.
proof fn lemma_recovery_streak_counts(h: (bool, u64, u64), probes: Seq<bool>, ft: u64, st: u64)
    requires
        1 <= st,
        !h.0,
        h.2 == 0,
        forall|i: int| 0 <= i < probes.len() ==> probes[i],
        probes.len() < st,
    ensures
        !spec_probe_run(h, probes, ft, st).0,
        spec_probe_run(h, probes, ft, st).2 == probes.len(),
    decreases probes.len(),
{
    if probes.len() > 0 {
        assert(forall|i: int|
            0 <= i < probes.len() - 1 ==> probes.drop_last()[i] == probes[i]);
        lemma_recovery_streak_counts(h, probes.drop_last(), ft, st);
        assert(probes.last());
    }
}

} // verus!
