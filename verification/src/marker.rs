use vstd::prelude::*;

verus! {

/// The process-wide dex-load flag. The host process keeps exactly one of
/// these; every loader entry point works on that one. Each try is one
/// compare-and-set step: it always leaves the flag set, and it reports
/// success only to the caller that found the flag unset.
pub struct LoadMarker {
    started: bool,
}

/// One compare-and-set step: the marker afterwards, and whether this caller
/// won the right to proceed.
pub closed spec fn mark_step(m: LoadMarker) -> (LoadMarker, bool) {
    (LoadMarker { started: true }, !m.started)
}

impl LoadMarker {
    /// The flag is set: some caller has already won the race.
    pub closed spec fn started(&self) -> bool {
        self.started
    }

    /// A fresh, unset marker, as the process starts with.
    pub fn new() -> (r: LoadMarker)
        ensures
            !r.started(),
    {
        LoadMarker { started: false }
    }

    /// Try to claim the load: succeeds exactly for the caller that found the
    /// flag unset, and leaves the flag set either way.
    pub fn try_mark_dex_load_started(&mut self) -> (r: bool)
        ensures
            (*final(self), r) == mark_step(*old(self)),
            final(self).started(),
            r == !old(self).started(),
    {
        let r = !self.started;
        self.started = true;
        r
    }

    /// Clear the flag, so a later entry point may retry after a failure.
    pub fn clear_dex_load_marker(&mut self)
        ensures
            !final(self).started(),
    {
        self.started = false;
    }

    /// Test hook: clears the flag so tests can reset the process state.
    pub fn clear_dex_load_marker_for_tests(&mut self)
        ensures
            !final(self).started(),
    {
        self.clear_dex_load_marker();
    }
}

/// The marker after `n` tries, and how many of those tries won.
pub open spec fn winners_after(m: LoadMarker, n: nat) -> (LoadMarker, nat)
    decreases n,
{
    if n == 0 {
        (m, 0)
    } else {
        let prev = winners_after(m, (n - 1) as nat);
        let step = mark_step(prev.0);
        (step.0, if step.1 {
            prev.1 + 1
        } else {
            prev.1
        })
    }
}

proof fn lemma_winners_after_started(m: LoadMarker, n: nat)
    requires
        m.started(),
    ensures
        winners_after(m, n).1 == 0,
        winners_after(m, n).0.started(),
    decreases n,
{
    if n > 0 {
        lemma_winners_after_started(m, (n - 1) as nat);
    }
}

/// Process-wide idempotence: starting from an unset flag, of any positive
/// number of consecutive tries exactly one wins, and the flag stays set.
pub proof fn lemma_exactly_one_winner(m: LoadMarker, n: nat)
    requires
        !m.started(),
        n >= 1,
    ensures
        winners_after(m, n).1 == 1,
        winners_after(m, n).0.started(),
    decreases n,
{
    reveal_with_fuel(winners_after, 2);
    if n == 1 {
    } else {
        lemma_exactly_one_winner(m, (n - 1) as nat);
    }
}

} // verus!
