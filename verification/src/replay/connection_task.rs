//! The task of one connection, as a state machine: its caller waits, writes
//! and reads; the task says what to do next and keeps the statistics.

use crate::profile::{CommandDistribution, CommandType, Event};
use crate::replay::client::{build_command, command_bytes};
use crate::replay::stats::{
    recorded_under, ConnectionStats, ErrorCounts, ErrorType, StatsSnapshot,
};
use crate::replay::ProtocolMode;
use vstd::prelude::*;

verus! {

/// What happened to the task since it last said what to do.
#[derive(Debug, Clone, Copy)]
pub enum TaskEvent {
    /// Cancellation fired while the task waited.
    Cancelled,
    /// The queue handed out its next event.
    Received(Event),
    /// The queue was closed and is empty.
    QueueClosed,
    /// The time for a snapshot has come.
    Tick,
    /// The aggregator takes no snapshots any more.
    ReportFailed,
    /// The request was written to the socket in full.
    Written,
    /// Writing the request failed.
    WriteFailed,
    /// The response was read; the command took this many microseconds from
    /// the start of the write.
    Responded(u64),
    /// Reading the response failed.
    ReadFailed,
}

/// What the task asks of its caller next.
pub enum TaskAction {
    /// Wait for cancellation, for the next event of the queue and for the
    /// tick, whichever comes first.
    Wait,
    /// Write these bytes to the socket, then say how it went.
    Write(Vec<u8>),
    /// Read the response, then say how it went.
    Read,
    /// Send this snapshot to the aggregator, then wait.
    Report(StatsSnapshot),
    /// Send this last snapshot to the aggregator and end, with the error
    /// that ended the task where one did.
    Exit(StatsSnapshot, Option<ErrorType>),
    /// The event is not one that the task awaits; nothing has changed.
    Rejected,
}

/// Where the task stands.
#[derive(Debug, Clone, Copy)]
pub enum TaskState {
    /// Waiting for work.
    Idle,
    /// The request of this event is being written.
    Writing(Event),
    /// The response to this event is being read.
    Reading(Event),
    /// The task has ended.
    Done,
}

/// Whether a task in `state` awaits `event`.
pub open spec fn awaits(state: TaskState, event: TaskEvent) -> bool {
    match state {
        TaskState::Idle => event is Cancelled || event is Received || event is QueueClosed
            || event is Tick || event is ReportFailed,
        TaskState::Writing(_) => event is Written || event is WriteFailed,
        TaskState::Reading(_) => event is Responded || event is ReadFailed,
        TaskState::Done => false,
    }
}

/// The state that a task in `state` is in after `event`.
pub open spec fn state_after(state: TaskState, event: TaskEvent) -> TaskState {
    match (state, event) {
        (TaskState::Idle, TaskEvent::Received(e)) => TaskState::Writing(e),
        (TaskState::Idle, TaskEvent::Tick) => TaskState::Idle,
        (TaskState::Idle, TaskEvent::Cancelled) => TaskState::Done,
        (TaskState::Idle, TaskEvent::QueueClosed) => TaskState::Done,
        (TaskState::Idle, TaskEvent::ReportFailed) => TaskState::Done,
        (TaskState::Writing(e), TaskEvent::Written) => TaskState::Reading(e),
        (TaskState::Writing(_), TaskEvent::WriteFailed) => TaskState::Done,
        (TaskState::Reading(_), TaskEvent::Responded(_)) => TaskState::Idle,
        (TaskState::Reading(_), TaskEvent::ReadFailed) => TaskState::Done,
        _ => state,
    }
}

/// The error that ends a task in `state` at `event`, where one does.
pub open spec fn error_at(state: TaskState, event: TaskEvent) -> Option<ErrorType> {
    match (state, event) {
        (TaskState::Writing(_), TaskEvent::WriteFailed) => Some(ErrorType::ConnectionError),
        (TaskState::Reading(_), TaskEvent::ReadFailed) => Some(ErrorType::ProtocolError),
        _ => None,
    }
}

/// Whether `s` is the snapshot of a connection that gathered these
/// histograms and counts.
pub open spec fn snapshot_of(
    s: StatsSnapshot,
    stats: ConnectionStats,
    errors: ErrorCounts,
) -> bool {
    &&& s.wf()
    &&& s.connection_id == stats.id()
    &&& s.histograms == stats.histograms()
    &&& s.success_counts == stats.successes()
    &&& s.error_counts == errors
}

/// The error counts with one more error of the kind `kind`.
pub open spec fn one_more(errors: ErrorCounts, kind: ErrorType) -> ErrorCounts {
    errors.with_count(kind, (errors.count(kind) + 1) as u64)
}

/// Whether `r` is what a task as `before` asks for at `event`, which it
/// awaits.
pub open spec fn action_fits(before: ConnectionTask, event: TaskEvent, r: TaskAction) -> bool {
    match (before.state(), event) {
        (TaskState::Idle, TaskEvent::Received(e)) => r matches TaskAction::Write(bytes) && bytes@
            == command_bytes(e, before.mode()),
        (TaskState::Idle, TaskEvent::Tick) => r matches TaskAction::Report(s) && snapshot_of(
            s,
            before.stats(),
            before.stats().errors(),
        ),
        (TaskState::Writing(_), TaskEvent::Written) => r is Read,
        (TaskState::Writing(_), TaskEvent::WriteFailed) => r matches TaskAction::Exit(s, error)
            && error == Some(ErrorType::ConnectionError) && snapshot_of(
            s,
            before.stats(),
            one_more(before.stats().errors(), ErrorType::ConnectionError),
        ),
        (TaskState::Reading(_), TaskEvent::Responded(_)) => r is Wait,
        (TaskState::Reading(_), TaskEvent::ReadFailed) => r matches TaskAction::Exit(s, error)
            && error == Some(ErrorType::ProtocolError) && snapshot_of(
            s,
            before.stats(),
            one_more(before.stats().errors(), ErrorType::ProtocolError),
        ),
        _ => r matches TaskAction::Exit(s, error) && error is None && snapshot_of(
            s,
            before.stats(),
            before.stats().errors(),
        ),
    }
}

/// Whether `after` are the statistics of a task that was as `before` and
/// took in `event`, which it awaited: a response counts a success of its
/// command and records the latency; a snapshot starts the statistics over;
/// anything else leaves them.
pub open spec fn stats_fit(
    before: ConnectionTask,
    event: TaskEvent,
    after: ConnectionStats,
) -> bool {
    match (before.state(), event) {
        (TaskState::Idle, TaskEvent::Received(_)) => after == before.stats(),
        (TaskState::Writing(_), TaskEvent::Written) => after == before.stats(),
        (TaskState::Reading(e), TaskEvent::Responded(micros)) => {
            &&& after.successes() == before.stats().successes().with_count(
                e.cmd_type,
                (before.stats().successes().count(e.cmd_type) + 1) as u64,
            )
            &&& after.errors() == before.stats().errors()
            &&& recorded_under(
                before.stats().histograms(),
                e.cmd_type,
                micros,
                after.histograms(),
            )
        },
        _ => {
            &&& after.successes() == CommandDistribution::zero()
            &&& after.errors() == ErrorCounts::zero()
            &&& forall|cmd: CommandType| after.histograms().samples(cmd) is None
        },
    }
}

/// Issues the commands of one connection one at a time and measures them.
pub struct ConnectionTask {
    stats: ConnectionStats,
    mode: ProtocolMode,
    state: TaskState,
    received: Ghost<Seq<Event>>,
    written: Ghost<Seq<Event>>,
}

impl ConnectionTask {
    /// Where the task stands.
    pub closed spec fn state(&self) -> TaskState {
        self.state
    }

    /// The protocol that the task speaks.
    pub closed spec fn mode(&self) -> ProtocolMode {
        self.mode
    }

    /// The statistics gathered since the last snapshot.
    pub closed spec fn stats(&self) -> ConnectionStats {
        self.stats
    }

    /// The events taken from the queue so far, in order.
    pub closed spec fn received(&self) -> Seq<Event> {
        self.received@
    }

    /// The events whose requests were written to the socket in full so far,
    /// in order.
    pub closed spec fn written(&self) -> Seq<Event> {
        self.written@
    }

    /// The statistics are sound, and the requests written are those of the
    /// events received, in order, but for the one being written.
    pub open spec fn wf(&self) -> bool {
        &&& self.stats().wf()
        &&& self.written() == self.received().take(self.written().len() as int)
        &&& self.written().len() <= self.received().len()
        &&& match self.state() {
            TaskState::Writing(e) => self.received().len() == self.written().len() + 1
                && self.received().last() == e,
            TaskState::Reading(e) => self.received() == self.written() && self.written().len() > 0
                && self.written().last() == e,
            TaskState::Idle => self.received() == self.written(),
            TaskState::Done => self.received().len() <= self.written().len() + 1,
        }
    }

    /// Whether one more success and one more error can be counted.
    pub open spec fn has_room(&self) -> bool {
        self.stats().successes().total() < u64::MAX && self.stats().errors().total() < u64::MAX
    }

    /// A task for the connection `connection_id` that waits for work.
    pub fn new(connection_id: u16, mode: ProtocolMode) -> (r: ConnectionTask)
        ensures
            r.wf(),
            r.has_room(),
            r.state() is Idle,
            r.mode() == mode,
            r.stats().id() == connection_id,
            r.stats().successes() == CommandDistribution::zero(),
            r.stats().errors() == ErrorCounts::zero(),
            forall|cmd: CommandType| r.stats().histograms().samples(cmd) is None,
            r.received() == Seq::<Event>::empty(),
            r.written() == Seq::<Event>::empty(),
    {
        proof {
            assert(Seq::<Event>::empty().take(0) =~= Seq::<Event>::empty());
        }
        ConnectionTask {
            stats: ConnectionStats::new(connection_id),
            mode,
            state: TaskState::Idle,
            received: Ghost(Seq::empty()),
            written: Ghost(Seq::empty()),
        }
    }

    /// Whether one more success and one more error can be counted. Where
    /// they cannot, a tick makes room.
    pub fn can_count(&self) -> (r: bool)
        requires
            self.wf(),
        ensures
            r == self.has_room(),
    {
        self.stats.can_record() && self.stats.can_record_error()
    }

    /// Whether the task has ended.
    pub fn is_done(&self) -> (r: bool)
        ensures
            r == (self.state() is Done),
    {
        match self.state {
            TaskState::Done => true,
            _ => false,
        }
    }

    /// Takes in what happened and says what to do next.
    ///
    /// While idle the task takes an event from the queue and has its request
    /// written; a tick hands out a snapshot; cancellation, the end of the
    /// queue and the loss of the aggregator end the task. While a request is
    /// written or a response read, nothing but the outcome of that is
    /// awaited: the command in flight completes. A failed write counts as a
    /// connection error, a failed read as a protocol error, and either ends
    /// the task. The task ends with a last snapshot, also where an error
    /// ends it.
    pub fn step(&mut self, event: TaskEvent) -> (r: TaskAction)
        requires
            old(self).wf(),
            old(self).has_room(),
        ensures
            final(self).wf(),
            final(self).mode() == old(self).mode(),
            final(self).stats().id() == old(self).stats().id(),
            !awaits(old(self).state(), event) ==> r is Rejected && *final(self) == *old(self),
            awaits(old(self).state(), event) ==> final(self).state() == state_after(
                old(self).state(),
                event,
            ),
            awaits(old(self).state(), event) ==> action_fits(*old(self), event, r),
            awaits(old(self).state(), event) ==> stats_fit(*old(self), event, final(self).stats()),
            final(self).received() == (match (old(self).state(), event) {
                (TaskState::Idle, TaskEvent::Received(e)) => old(self).received().push(e),
                _ => old(self).received(),
            }),
            final(self).written() == (match (old(self).state(), event) {
                (TaskState::Writing(_), TaskEvent::Written) => old(self).received(),
                _ => old(self).written(),
            }),
    {
        match self.state {
            TaskState::Idle => match event {
                TaskEvent::Received(e) => {
                    let bytes = build_command(&e, self.mode);
                    self.state = TaskState::Writing(e);
                    self.received = Ghost(self.received@.push(e));
                    proof {
                        assert(self.written@ =~= self.received@.take(self.written@.len() as int));
                    }
                    TaskAction::Write(bytes)
                },
                TaskEvent::Tick => TaskAction::Report(self.stats.snapshot()),
                TaskEvent::Cancelled => {
                    self.state = TaskState::Done;
                    TaskAction::Exit(self.stats.snapshot(), None)
                },
                TaskEvent::QueueClosed => {
                    self.state = TaskState::Done;
                    TaskAction::Exit(self.stats.snapshot(), None)
                },
                TaskEvent::ReportFailed => {
                    self.state = TaskState::Done;
                    TaskAction::Exit(self.stats.snapshot(), None)
                },
                _ => TaskAction::Rejected,
            },
            TaskState::Writing(e) => match event {
                TaskEvent::Written => {
                    self.state = TaskState::Reading(e);
                    self.written = Ghost(self.received@);
                    proof {
                        assert(self.written@ =~= self.received@.take(self.written@.len() as int));
                    }
                    TaskAction::Read
                },
                TaskEvent::WriteFailed => {
                    self.stats.record_error(e.cmd_type, ErrorType::ConnectionError);
                    self.state = TaskState::Done;
                    TaskAction::Exit(self.stats.snapshot(), Some(ErrorType::ConnectionError))
                },
                _ => TaskAction::Rejected,
            },
            TaskState::Reading(e) => match event {
                TaskEvent::Responded(micros) => {
                    self.stats.record_micros(e.cmd_type, micros);
                    self.state = TaskState::Idle;
                    TaskAction::Wait
                },
                TaskEvent::ReadFailed => {
                    self.stats.record_error(e.cmd_type, ErrorType::ProtocolError);
                    self.state = TaskState::Done;
                    TaskAction::Exit(self.stats.snapshot(), Some(ErrorType::ProtocolError))
                },
                _ => TaskAction::Rejected,
            },
            TaskState::Done => TaskAction::Rejected,
        }
    }
}

/// The requests of a connection are written in the order in which its events
/// were received: once the request of an event is written in full, so are
/// the requests of all events received before it, each in its place.
pub proof fn lemma_requests_written_in_order(task: ConnectionTask, i: int, j: int)
    requires
        task.wf(),
        0 <= i <= j < task.written().len(),
    ensures
        j < task.received().len(),
        task.written()[i] == task.received()[i],
        task.written()[j] == task.received()[j],
{
}

} // verus!
