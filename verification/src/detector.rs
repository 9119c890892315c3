//! The quiescence detector: a small state machine that each agent runs
//! to decide when to stop.

use vstd::prelude::*;

verus! {

/// The number of quiet rounds in a row that the sentinel waits for before
/// it announces the end of the run. A tunable default, not a proven bound.
pub const QUIET_THRESHOLD: usize = 10;

/// Where an agent stands with respect to the end of the run.
#[derive(PartialEq, Eq, Structural, Clone, Copy, Debug)]
pub enum Detector {
    /// Work was seen in the last round, or nothing was counted yet.
    Active,
    /// So many rounds in a row brought nothing but heartbeats.
    Quiescent(usize),
    /// The run ends with the round of this number.
    Terminating(usize),
    /// The agent has halted.
    Stopped,
}

impl Detector {
    /// The state after a `Terminate` for round `at_round` arrived. Of
    /// several announcements the earliest round stands; a halted agent
    /// stays halted.
    pub open spec fn spec_on_terminate(self, at_round: usize) -> Detector {
        match self {
            Detector::Active => Detector::Terminating(at_round),
            Detector::Quiescent(_) => Detector::Terminating(at_round),
            Detector::Terminating(known) => if at_round < known {
                Detector::Terminating(at_round)
            } else {
                self
            },
            Detector::Stopped => Detector::Stopped,
        }
    }

    /// The end of the run is known and lies at round `round` or before.
    pub open spec fn stops_by(self, round: usize) -> bool {
        match self {
            Detector::Terminating(known) => known <= round,
            Detector::Stopped => true,
            _ => false,
        }
    }

    /// The state after the inbox of round `round` was read. Only the
    /// sentinel counts: a round with work makes it active again, a quiet
    /// one adds to the count, and the count passing `threshold` sets the
    /// end of the run to the next round.
    pub open spec fn spec_on_inbox(
        self,
        sentinel: bool,
        quiet: bool,
        round: usize,
        threshold: usize,
    ) -> Detector {
        match self {
            Detector::Active => if !sentinel || !quiet {
                Detector::Active
            } else if 0 >= threshold {
                Detector::Terminating((round + 1) as usize)
            } else {
                Detector::Quiescent(1)
            },
            Detector::Quiescent(count) => if !sentinel || !quiet {
                Detector::Active
            } else if count >= threshold {
                Detector::Terminating((round + 1) as usize)
            } else {
                Detector::Quiescent((count + 1) as usize)
            },
            other => other,
        }
    }

    /// Whether reading the inbox made the sentinel announce the end.
    pub open spec fn spec_fires(self, sentinel: bool, quiet: bool, threshold: usize) -> bool {
        sentinel && quiet && match self {
            Detector::Active => 0 >= threshold,
            Detector::Quiescent(count) => count >= threshold,
            _ => false,
        }
    }

    /// The state once the round counter has moved on to `next_round`: an
    /// agent halts when the counter has passed the announced round.
    pub open spec fn spec_on_round_end(self, next_round: usize) -> Detector {
        match self {
            Detector::Terminating(at_round) => if next_round > at_round {
                Detector::Stopped
            } else {
                self
            },
            other => other,
        }
    }

    /// The announced round lies before `round`: the agent heard of the end
    /// too late to take part in round `round`.
    pub open spec fn spec_overdue(self, round: usize) -> bool {
        match self {
            Detector::Terminating(known) => known < round,
            Detector::Stopped => true,
            _ => false,
        }
    }

    pub open spec fn spec_halted(self) -> bool {
        self is Stopped
    }

    /// Whether the agent has halted.
    pub fn halted(&self) -> (h: bool)
        ensures
            h == self.spec_halted(),
    {
        match self {
            Detector::Stopped => true,
            _ => false,
        }
    }

    /// Whether the end of the run lies before `round`.
    pub fn overdue(&self, round: usize) -> (late: bool)
        ensures
            late == self.spec_overdue(round),
    {
        match self {
            Detector::Terminating(known) => *known < round,
            Detector::Stopped => true,
            _ => false,
        }
    }

    /// Takes note of a `Terminate` for round `at_round`.
    pub fn on_terminate(self, at_round: usize) -> (next: Detector)
        ensures
            next == self.spec_on_terminate(at_round),
    {
        match self {
            Detector::Active => Detector::Terminating(at_round),
            Detector::Quiescent(_) => Detector::Terminating(at_round),
            Detector::Terminating(known) => {
                if at_round < known {
                    Detector::Terminating(at_round)
                } else {
                    self
                }
            },
            Detector::Stopped => Detector::Stopped,
        }
    }

    /// Counts the round just read. The second result says whether the
    /// end of the run is to be announced now.
    pub fn on_inbox(self, sentinel: bool, quiet: bool, round: usize, threshold: usize) -> (next: (
        Detector,
        bool,
    ))
        requires
            round < usize::MAX,
        ensures
            next.0 == self.spec_on_inbox(sentinel, quiet, round, threshold),
            next.1 == self.spec_fires(sentinel, quiet, threshold),
    {
        match self {
            Detector::Active => {
                if !sentinel || !quiet {
                    (Detector::Active, false)
                } else if threshold == 0 {
                    (Detector::Terminating(round + 1), true)
                } else {
                    (Detector::Quiescent(1), false)
                }
            },
            Detector::Quiescent(count) => {
                if !sentinel || !quiet {
                    (Detector::Active, false)
                } else if count >= threshold {
                    (Detector::Terminating(round + 1), true)
                } else {
                    (Detector::Quiescent(count + 1), false)
                }
            },
            other => (other, false),
        }
    }

    /// Moves on to round `next_round`.
    pub fn on_round_end(self, next_round: usize) -> (next: Detector)
        ensures
            next == self.spec_on_round_end(next_round),
    {
        match self {
            Detector::Terminating(at_round) => {
                if next_round > at_round {
                    Detector::Stopped
                } else {
                    self
                }
            },
            other => other,
        }
    }
}

/// The state of the sentinel's detector after `k` quiet rounds in a row
/// that began in round `round`, counted from the state `d`.
pub open spec fn after_quiet(d: Detector, round: usize, threshold: usize, k: nat) -> Detector
    decreases k,
{
    if k == 0 {
        d
    } else {
        after_quiet(d, round, threshold, (k - 1) as nat).spec_on_inbox(
            true,
            true,
            (round + k - 1) as usize,
            threshold,
        )
    }
}

/// The sentinel waits for more than `threshold` quiet rounds: while the
/// count is at most the threshold it goes on counting, and the quiet
/// round after that sets the end of the run to the round that follows.
pub proof fn lemma_patience(round: usize, threshold: usize, k: nat)
    requires
        round + threshold + 1 <= usize::MAX,
        1 <= k <= threshold + 1,
    ensures
        k <= threshold ==> after_quiet(Detector::Active, round, threshold, k)
            == Detector::Quiescent(k as usize),
        k == threshold + 1 ==> after_quiet(Detector::Active, round, threshold, k)
            == Detector::Terminating((round + k) as usize),
        k == threshold + 1 ==> after_quiet(
            Detector::Active,
            round,
            threshold,
            (k - 1) as nat,
        ).spec_fires(true, true, threshold),
    decreases k,
{
    if k > 1 {
        lemma_patience(round, threshold, (k - 1) as nat);
    }
}

/// A halted agent stays halted whatever it observes.
pub proof fn lemma_stopped_is_final(
    at_round: usize,
    sentinel: bool,
    quiet: bool,
    round: usize,
    threshold: usize,
)
    ensures
        Detector::Stopped.spec_on_terminate(at_round) == Detector::Stopped,
        Detector::Stopped.spec_on_inbox(sentinel, quiet, round, threshold) == Detector::Stopped,
        Detector::Stopped.spec_on_round_end(round) == Detector::Stopped,
{
}

/// An announced end of the run is never forgotten nor moved to a later
/// round: whatever the detector observes next, the run still ends by
/// round `by`. Hearing of a round establishes this for that round.
pub proof fn lemma_stop_is_kept(
    d: Detector,
    by: usize,
    at_round: usize,
    sentinel: bool,
    quiet: bool,
    round: usize,
    threshold: usize,
)
    ensures
        d.spec_on_terminate(at_round).stops_by(at_round),
        d.stops_by(by) ==> d.spec_on_terminate(at_round).stops_by(by),
        d.stops_by(by) ==> d.spec_on_inbox(sentinel, quiet, round, threshold).stops_by(by),
        d.stops_by(by) ==> d.spec_on_round_end(round).stops_by(by),
        d.stops_by(by) && round > by ==> d.spec_on_round_end(round) == Detector::Stopped,
{
}

} // verus!
