//! The aggregator, as a state machine: its caller receives snapshots and
//! ticks; the aggregator merges and says what to do next.

use crate::profile::{CommandDistribution, CommandType};
use crate::replay::stats::{AggregatedStats, ErrorCounts, StatsSnapshot};
use vstd::prelude::*;

verus! {

/// How many seconds pass between two progress reports.
pub const REPORT_PERIOD_SECS: u64 = 5;

/// What reached the aggregator.
pub enum AggregatorEvent {
    /// Cancellation fired.
    Cancelled,
    /// A connection sent a snapshot.
    Snapshot(StatsSnapshot),
    /// Every connection has ended: no snapshot will come any more.
    Closed,
    /// The time for a progress report has come, this many whole seconds
    /// after the start.
    Tick(u64),
}

/// What the aggregator asks of its caller next.
#[derive(Debug, Clone, Copy, PartialEq, Eq, Structural)]
pub enum AggregatorAction {
    /// Wait for cancellation, for the next snapshot and for the tick,
    /// whichever comes first.
    Wait,
    /// Wait for the next snapshot alone: the last snapshots are still to
    /// come.
    Drain,
    /// Print a progress line, then wait.
    Report { elapsed_secs: u64, total_operations: u64 },
    /// Take the statistics: the aggregator is done.
    Return,
}

/// Where the aggregator stands.
#[derive(Debug, Clone, Copy, PartialEq, Eq, Structural)]
pub enum AggregatorState {
    Running,
    /// Cancelled, and waiting for the last snapshots.
    Draining,
    Done,
}

/// The successes of `cmd` that the snapshots with the counts `log` counted
/// together.
pub open spec fn summed(log: Seq<CommandDistribution>, cmd: CommandType) -> int
    decreases log.len(),
{
    if log.len() == 0 {
        0
    } else {
        summed(log.drop_last(), cmd) + log.last().count(cmd)
    }
}

/// The successes that the snapshots with the counts `log` counted together.
pub open spec fn summed_total(log: Seq<CommandDistribution>) -> int
    decreases log.len(),
{
    if log.len() == 0 {
        0
    } else {
        summed_total(log.drop_last()) + log.last().total()
    }
}

/// Merges the snapshots of all connections until the last has come.
pub struct StatsAggregator {
    stats: AggregatedStats,
    state: AggregatorState,
    merged: Ghost<Seq<CommandDistribution>>,
}

impl StatsAggregator {
    /// Where the aggregator stands.
    pub closed spec fn state(&self) -> AggregatorState {
        self.state
    }

    /// What was merged so far.
    pub closed spec fn stats(&self) -> AggregatedStats {
        self.stats
    }

    /// The success counts of the snapshots merged so far, in the order in
    /// which they came.
    pub closed spec fn merged(&self) -> Seq<CommandDistribution> {
        self.merged@
    }

    /// The statistics are sound and count what the merged snapshots counted.
    pub open spec fn wf(&self) -> bool {
        &&& self.stats().wf()
        &&& forall|cmd: CommandType| #[trigger]
            self.stats().successes().count(cmd) == summed(self.merged(), cmd)
        &&& self.stats().successes().total() == summed_total(self.merged())
    }

    /// Whether the aggregator can take in `event`: a snapshot must be sound
    /// and leave the counts within 64 bits.
    pub open spec fn can_take(&self, event: &AggregatorEvent) -> bool {
        match event {
            AggregatorEvent::Snapshot(s) => s.wf() && self.stats().has_room_for(s),
            _ => true,
        }
    }

    /// An aggregator that has merged nothing.
    pub fn new() -> (r: StatsAggregator)
        ensures
            r.wf(),
            r.state() == AggregatorState::Running,
            r.merged() == Seq::<CommandDistribution>::empty(),
            r.stats().successes() == CommandDistribution::zero(),
            r.stats().errors() == ErrorCounts::zero(),
            forall|cmd: CommandType| r.stats().histograms().samples(cmd) is None,
    {
        StatsAggregator {
            stats: AggregatedStats::new(),
            state: AggregatorState::Running,
            merged: Ghost(Seq::empty()),
        }
    }

    /// Whether the counts of `snapshot` can be added to those merged so far.
    pub fn has_room_for(&self, snapshot: &StatsSnapshot) -> (r: bool)
        ensures
            r == self.stats().has_room_for(snapshot),
    {
        self.stats.can_merge(snapshot)
    }

    /// Takes in what reached the aggregator and says what to do next.
    ///
    /// A snapshot is merged, whenever it comes. Cancellation does not end
    /// the aggregator: it waits on for the last snapshots and reports no
    /// progress any more. The aggregator is done when no snapshot can come
    /// any more. A tick asks for a progress line once a full period has
    /// passed since the start.
    pub fn step(&mut self, event: AggregatorEvent) -> (r: AggregatorAction)
        requires
            old(self).wf(),
            old(self).can_take(&event),
        ensures
            final(self).wf(),
            final(self).state() == (match (old(self).state(), event) {
                (AggregatorState::Done, _) => AggregatorState::Done,
                (_, AggregatorEvent::Closed) => AggregatorState::Done,
                (_, AggregatorEvent::Cancelled) => AggregatorState::Draining,
                (state, _) => state,
            }),
            final(self).merged() == (match (old(self).state(), event) {
                (AggregatorState::Done, _) => old(self).merged(),
                (_, AggregatorEvent::Snapshot(s)) => old(self).merged().push(s.success_counts),
                _ => old(self).merged(),
            }),
            r == (match (final(self).state(), event) {
                (AggregatorState::Done, _) => AggregatorAction::Return,
                (AggregatorState::Draining, _) => AggregatorAction::Drain,
                (AggregatorState::Running, AggregatorEvent::Tick(elapsed)) => if elapsed
                    >= REPORT_PERIOD_SECS {
                    AggregatorAction::Report {
                        elapsed_secs: elapsed,
                        total_operations: old(self).stats().successes().total() as u64,
                    }
                } else {
                    AggregatorAction::Wait
                },
                (AggregatorState::Running, _) => AggregatorAction::Wait,
            }),
            !(event is Snapshot)
                || old(self).state() == AggregatorState::Done
                ==> final(self).stats() == old(self).stats(),
            old(self).state() != AggregatorState::Done ==> (event matches AggregatorEvent::Snapshot(
                s,
            ) ==> final(self).stats().took_in(&old(self).stats(), &s)),
    {
        match self.state {
            AggregatorState::Done => {
                return AggregatorAction::Return;
            },
            _ => {},
        }
        match event {
            AggregatorEvent::Closed => {
                self.state = AggregatorState::Done;
                AggregatorAction::Return
            },
            AggregatorEvent::Cancelled => {
                self.state = AggregatorState::Draining;
                AggregatorAction::Drain
            },
            AggregatorEvent::Snapshot(snapshot) => {
                let ghost log = self.merged@.push(snapshot.success_counts);
                proof {
                    assert(log.drop_last() =~= self.merged@);
                }
                self.stats.merge(snapshot);
                self.merged = Ghost(log);
                match self.state {
                    AggregatorState::Running => AggregatorAction::Wait,
                    _ => AggregatorAction::Drain,
                }
            },
            AggregatorEvent::Tick(elapsed) => {
                match self.state {
                    AggregatorState::Running => {
                        if elapsed >= REPORT_PERIOD_SECS {
                            AggregatorAction::Report {
                                elapsed_secs: elapsed,
                                total_operations: self.stats.total_operations(),
                            }
                        } else {
                            AggregatorAction::Wait
                        }
                    },
                    _ => AggregatorAction::Drain,
                }
            },
        }
    }

    /// The statistics merged so far.
    pub fn statistics(&self) -> (r: &AggregatedStats)
        ensures
            *r == self.stats(),
    {
        &self.stats
    }

    /// Hands the statistics over.
    pub fn finish(self) -> (r: AggregatedStats)
        requires
            self.wf(),
        ensures
            r == self.stats(),
            r.wf(),
            r.successes().total() == summed_total(self.merged()),
    {
        self.stats
    }
}

} // verus!
