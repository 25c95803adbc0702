//! Latency statistics: what each connection gathers between snapshots, and
//! what the aggregator makes of the snapshots.

use crate::profile::{CommandDistribution, CommandType};
use hdrhistogram::Histogram;
use std::time::Duration;
use vstd::multiset::*;
use vstd::prelude::*;

verus! {

/// A latency histogram of the `hdrhistogram` crate: made by
/// `Histogram::<u64>::new(3)`, and changed by `record` and `add` alone. It
/// keeps three significant digits, so it cannot tell a sample from the
/// lowest value of its bucket.
#[verifier::external_body]
pub struct LatencyHistogram {
    inner: Histogram<u64>,
}

/// The samples that a histogram holds, each as the lowest value that the
/// histogram cannot tell it from.
pub uninterp spec fn histogram_samples(h: LatencyHistogram) -> Multiset<u64>;

/// What `Histogram::value_at_percentile` gives for a histogram that holds
/// `samples`.
pub uninterp spec fn percentile_value(samples: Multiset<u64>, percent: u8) -> u64;

/// Whether `value` is the least of `samples`.
pub open spec fn is_least(samples: Multiset<u64>, value: u64) -> bool {
    samples.count(value) > 0 && forall|other: u64| samples.count(other) > 0 ==> value <= other
}

/// The lowest of `samples`; zero where there are none.
pub open spec fn lowest_value(samples: Multiset<u64>) -> u64 {
    if samples.len() == 0 {
        0
    } else {
        choose|value: u64| is_least(samples, value)
    }
}

/// What `Histogram::max` gives for a histogram that holds `samples`.
pub uninterp spec fn highest_value(samples: Multiset<u64>) -> u64;

/// What a histogram holds for a sample of `value`: the lowest value that the
/// histogram, with its three significant digits, cannot tell from `value`.
pub uninterp spec fn held_value(value: u64) -> u64;

/// The whole microseconds of a duration, as `Duration::as_micros` gives
/// them.
pub uninterp spec fn micros_of(latency: Duration) -> u128;

/// The highest latency, in microseconds, that a histogram is asked to hold.
pub const MAX_RECORDABLE: u64 = 0x3fff_ffff_ffff_ffff;

/// The number of samples up to which a histogram places its percentiles
/// exactly: beyond it the count is rounded before a share of it is taken.
pub const MAX_EXACT_COUNT: u64 = 0x20_0000_0000_0000;

/// Calls `Histogram::<u64>::new(3)`: an empty histogram of three significant
/// digits that grows with its samples. Trusted: with three digits the call
/// succeeds, and the histogram holds nothing.
#[verifier::external_body]
fn histogram_new() -> (r: Option<LatencyHistogram>)
    ensures
        r is Some,
        r matches Some(h) ==> histogram_samples(h) == Multiset::<u64>::empty(),
{
    Histogram::<u64>::new(3).ok().map(|inner| LatencyHistogram { inner })
}

/// Calls `Histogram::record`. Trusted: a histogram that grows with its
/// samples takes every value up to `MAX_RECORDABLE`, on any machine whose
/// `usize` has 32 bits or more; it then holds one sample more, as the lowest
/// value that it cannot tell from `value`, which is no larger than `value`.
#[verifier::external_body]
fn histogram_record(h: &mut LatencyHistogram, value: u64) -> (ok: bool)
    requires
        value <= MAX_RECORDABLE,
        histogram_samples(*old(h)).len() < u64::MAX,
    ensures
        ok,
        ok ==> held_value(value) <= value,
        histogram_samples(*final(h)) == histogram_samples(*old(h)).insert(held_value(value)),
{
    h.inner.record(value).is_ok()
}

/// Calls `Histogram::add`. Trusted: a histogram that grows with its samples
/// takes in every other one, on any machine whose `usize` has 32 bits or
/// more; it then holds the samples of `source` besides its own.
#[verifier::external_body]
fn histogram_add(h: &mut LatencyHistogram, source: &LatencyHistogram) -> (ok: bool)
    requires
        histogram_samples(*old(h)).len() + histogram_samples(*source).len() <= u64::MAX,
    ensures
        ok,
        histogram_samples(*final(h)) == histogram_samples(*old(h)).add(
            histogram_samples(*source),
        ),
{
    h.inner.add(&source.inner).is_ok()
}

/// Calls `Histogram::len`: the number of samples held.
#[verifier::external_body]
fn histogram_len(h: &LatencyHistogram) -> (r: u64)
    ensures
        r == histogram_samples(*h).len(),
{
    h.inner.len()
}

/// Calls `Histogram::value_at_percentile` with `percent` as the percentile.
/// Trusted: the value is that of one of the samples held, at the upper end of
/// what the histogram cannot tell from it, so for a histogram that holds
/// samples, and no more than `MAX_EXACT_COUNT` of them, it lies between
/// the least of them and what `max` gives.
#[verifier::external_body]
fn histogram_percentile(h: &LatencyHistogram, percent: u8) -> (r: u64)
    ensures
        r == percentile_value(histogram_samples(*h), percent),
        0 < histogram_samples(*h).len() <= MAX_EXACT_COUNT ==> lowest_value(
            histogram_samples(*h),
        ) <= r <= highest_value(histogram_samples(*h)),
{
    h.inner.value_at_percentile(percent.into())
}

/// Calls `Histogram::min`. Trusted: it gives zero for a histogram without
/// samples, and else the least of its samples, as the histogram holds them.
#[verifier::external_body]
fn histogram_min(h: &LatencyHistogram) -> (r: u64)
    ensures
        r == lowest_value(histogram_samples(*h)),
{
    h.inner.min()
}

/// Calls `Histogram::max`. Trusted: what it gives depends on the samples
/// alone.
#[verifier::external_body]
fn histogram_max(h: &LatencyHistogram) -> (r: u64)
    ensures
        r == highest_value(histogram_samples(*h)),
{
    h.inner.max()
}

/// Calls `Duration::as_micros`: the whole microseconds of a duration.
#[verifier::external_body]
fn duration_micros(d: Duration) -> (r: u128)
    ensures
        r == micros_of(d),
{
    d.as_micros()
}

/// How a command failed.
#[derive(Debug, Clone, Copy, PartialEq, Eq, Structural, Hash)]
pub enum ErrorType {
    Timeout,
    ConnectionError,
    ProtocolError,
}

impl ErrorType {
    /// The name under which statistics list this kind of error.
    pub fn name(&self) -> (r: &'static str)
        ensures
            r@ == match *self {
                ErrorType::Timeout => "Timeout"@,
                ErrorType::ConnectionError => "ConnectionError"@,
                ErrorType::ProtocolError => "ProtocolError"@,
            },
    {
        match self {
            ErrorType::Timeout => "Timeout",
            ErrorType::ConnectionError => "ConnectionError",
            ErrorType::ProtocolError => "ProtocolError",
        }
    }
}

/// How often each kind of error occurred. A kind that never occurred counts
/// zero.
#[derive(Debug, Clone, Copy, PartialEq, Eq, Structural)]
pub struct ErrorCounts {
    pub timeout: u64,
    pub connection_error: u64,
    pub protocol_error: u64,
}

impl ErrorCounts {
    /// The count of one kind of error.
    pub open spec fn count(self, kind: ErrorType) -> u64 {
        match kind {
            ErrorType::Timeout => self.timeout,
            ErrorType::ConnectionError => self.connection_error,
            ErrorType::ProtocolError => self.protocol_error,
        }
    }

    /// The sum of all counts.
    pub open spec fn total(self) -> int {
        self.timeout + self.connection_error + self.protocol_error
    }

    /// The counts with the count of `kind` replaced.
    pub open spec fn with_count(self, kind: ErrorType, count: u64) -> ErrorCounts {
        match kind {
            ErrorType::Timeout => ErrorCounts { timeout: count, ..self },
            ErrorType::ConnectionError => ErrorCounts { connection_error: count, ..self },
            ErrorType::ProtocolError => ErrorCounts { protocol_error: count, ..self },
        }
    }

    /// No errors at all.
    pub open spec fn zero() -> ErrorCounts {
        ErrorCounts { timeout: 0, connection_error: 0, protocol_error: 0 }
    }

    /// No errors at all.
    pub fn new() -> (r: ErrorCounts)
        ensures
            r == ErrorCounts::zero(),
    {
        ErrorCounts { timeout: 0, connection_error: 0, protocol_error: 0 }
    }

    /// The count of `kind`.
    pub fn count_of(&self, kind: ErrorType) -> (r: u64)
        ensures
            r == self.count(kind),
    {
        match kind {
            ErrorType::Timeout => self.timeout,
            ErrorType::ConnectionError => self.connection_error,
            ErrorType::ProtocolError => self.protocol_error,
        }
    }

    /// The count of `kind` where it occurred at all.
    pub fn get(&self, kind: &ErrorType) -> (r: Option<&u64>)
        ensures
            self.count(*kind) == 0 ==> r is None,
            self.count(*kind) != 0 ==> (r matches Some(c) && *c == self.count(*kind)),
    {
        match kind {
            ErrorType::Timeout => if self.timeout != 0 {
                Some(&self.timeout)
            } else {
                None
            },
            ErrorType::ConnectionError => if self.connection_error != 0 {
                Some(&self.connection_error)
            } else {
                None
            },
            ErrorType::ProtocolError => if self.protocol_error != 0 {
                Some(&self.protocol_error)
            } else {
                None
            },
        }
    }

    /// The sum of all counts.
    pub fn sum(&self) -> (r: u128)
        ensures
            r == self.total(),
    {
        self.timeout as u128 + self.connection_error as u128 + self.protocol_error as u128
    }

    /// Replaces the count of `kind`.
    pub fn insert(&mut self, kind: ErrorType, count: u64)
        ensures
            *final(self) == old(self).with_count(kind, count),
    {
        match kind {
            ErrorType::Timeout => {
                self.timeout = count;
            },
            ErrorType::ConnectionError => {
                self.connection_error = count;
            },
            ErrorType::ProtocolError => {
                self.protocol_error = count;
            },
        }
    }
}

/// The samples of a command before it was measured once more.
pub open spec fn samples_before(samples: Option<Multiset<u64>>) -> Multiset<u64> {
    match samples {
        Some(m) => m,
        None => Multiset::empty(),
    }
}

/// The samples of a command that held `before` and was measured with
/// `micros`: one sample more, as the histogram holds it; for a latency above
/// `MAX_RECORDABLE`, which no histogram is asked to hold, the samples as
/// they were.
pub open spec fn recorded_samples(before: Option<Multiset<u64>>, micros: u64) -> Option<
    Multiset<u64>,
> {
    if micros <= MAX_RECORDABLE {
        Some(samples_before(before).insert(held_value(micros)))
    } else {
        Some(samples_before(before))
    }
}

/// Whether `after` are the histograms that `before` become when `cmd` is
/// measured with `micros`: the samples of `cmd` take the latency in, those
/// of every other command stay.
pub open spec fn recorded_under(
    before: HistogramSet,
    cmd: CommandType,
    micros: u64,
    after: HistogramSet,
) -> bool {
    &&& after.samples(cmd) == recorded_samples(before.samples(cmd), micros)
    &&& forall|other: CommandType|
        other != cmd ==> after.samples(other) == before.samples(other)
}

/// The samples of a command that held `before` and took in those of
/// `source`: both together. A command that neither has stays without
/// samples.
pub open spec fn merged_samples(
    before: Option<Multiset<u64>>,
    source: Option<Multiset<u64>>,
) -> Option<Multiset<u64>> {
    match source {
        None => before,
        Some(more) => Some(samples_before(before).add(more)),
    }
}

/// In whatever order two sources are taken in, the samples are the same in
/// the end, and so is every percentile of them.
pub proof fn lemma_merge_order(
    before: Option<Multiset<u64>>,
    first: Option<Multiset<u64>>,
    second: Option<Multiset<u64>>,
)
    ensures
        merged_samples(merged_samples(before, first), second) == merged_samples(
            merged_samples(before, second),
            first,
        ),
{
    let b = samples_before(before);
    match (first, second) {
        (Some(f), Some(g)) => {
            assert(b.add(f).add(g) =~= b.add(g).add(f));
        },
        _ => {},
    }
}

/// One latency histogram for each kind of command that was measured.
pub struct HistogramSet {
    get: Option<LatencyHistogram>,
    store: Option<LatencyHistogram>,
    delete: Option<LatencyHistogram>,
    noop: Option<LatencyHistogram>,
}

impl HistogramSet {
    /// The samples held for `cmd`; `None` where `cmd` was never measured.
    pub closed spec fn samples(&self, cmd: CommandType) -> Option<Multiset<u64>> {
        match self.slot(cmd) {
            None => None,
            Some(h) => Some(histogram_samples(h)),
        }
    }

    /// How many samples are held for `cmd`.
    pub open spec fn sample_count(&self, cmd: CommandType) -> nat {
        match self.samples(cmd) {
            None => 0,
            Some(m) => m.len(),
        }
    }

    /// The histogram of `cmd`, where `cmd` was measured.
    spec fn slot(&self, cmd: CommandType) -> Option<LatencyHistogram> {
        match cmd {
            CommandType::Get => self.get,
            CommandType::Store => self.store,
            CommandType::Delete => self.delete,
            CommandType::Noop => self.noop,
        }
    }

    /// A set without histograms.
    pub fn new() -> (r: HistogramSet)
        ensures
            forall|cmd: CommandType| r.samples(cmd) is None,
    {
        HistogramSet { get: None, store: None, delete: None, noop: None }
    }

    /// The histogram of `cmd`, where `cmd` was measured.
    pub fn get(&self, cmd: &CommandType) -> (r: Option<&LatencyHistogram>)
        ensures
            r is Some <==> self.samples(*cmd) is Some,
            r matches Some(h) ==> self.samples(*cmd) == Some(histogram_samples(*h)),
    {
        match cmd {
            CommandType::Get => self.get.as_ref(),
            CommandType::Store => self.store.as_ref(),
            CommandType::Delete => self.delete.as_ref(),
            CommandType::Noop => self.noop.as_ref(),
        }
    }

    /// How many samples are held for `cmd`.
    pub fn held(&self, cmd: CommandType) -> (r: u64)
        ensures
            r == self.sample_count(cmd),
    {
        match self.get(&cmd) {
            None => 0,
            Some(h) => histogram_len(h),
        }
    }

    /// Whether `cmd` was measured.
    pub fn contains_key(&self, cmd: &CommandType) -> (r: bool)
        ensures
            r == (self.samples(*cmd) is Some),
    {
        self.get(cmd).is_some()
    }

    /// Takes the histogram of `cmd` out of the set.
    fn take(&mut self, cmd: CommandType) -> (r: Option<LatencyHistogram>)
        ensures
            r == old(self).slot(cmd),
            final(self).slot(cmd) is None,
            forall|other: CommandType| other != cmd ==> final(self).slot(other) == old(self).slot(
                other,
            ),
    {
        let mut out: Option<LatencyHistogram> = None;
        match cmd {
            CommandType::Get => {
                std::mem::swap(&mut self.get, &mut out);
            },
            CommandType::Store => {
                std::mem::swap(&mut self.store, &mut out);
            },
            CommandType::Delete => {
                std::mem::swap(&mut self.delete, &mut out);
            },
            CommandType::Noop => {
                std::mem::swap(&mut self.noop, &mut out);
            },
        }
        out
    }

    /// Puts a histogram into the set as that of `cmd`.
    fn put(&mut self, cmd: CommandType, h: LatencyHistogram)
        ensures
            final(self).slot(cmd) == Some(h),
            forall|other: CommandType| other != cmd ==> final(self).slot(other) == old(self).slot(
                other,
            ),
    {
        match cmd {
            CommandType::Get => {
                self.get = Some(h);
            },
            CommandType::Store => {
                self.store = Some(h);
            },
            CommandType::Delete => {
                self.delete = Some(h);
            },
            CommandType::Noop => {
                self.noop = Some(h);
            },
        }
    }

    /// Records one latency under `cmd`, in a new histogram where `cmd` had
    /// none. A latency above `MAX_RECORDABLE` is not recorded.
    fn record(&mut self, cmd: CommandType, micros: u64)
        requires
            old(self).sample_count(cmd) < u64::MAX,
        ensures
            recorded_under(*old(self), cmd, micros, *final(self)),
            final(self).sample_count(cmd) <= old(self).sample_count(cmd) + 1,
    {
        let mut h = match self.take(cmd) {
            Some(h) => h,
            None => match histogram_new() {
                Some(h) => h,
                None => {
                    return ;
                },
            },
        };
        if micros <= MAX_RECORDABLE {
            let _ = histogram_record(&mut h, micros);
        }
        self.put(cmd, h);
    }

    /// Adds the samples of `source` to those held for `cmd`, in a new
    /// histogram where `cmd` had none.
    fn merge(&mut self, cmd: CommandType, source: &LatencyHistogram)
        requires
            old(self).sample_count(cmd) + histogram_samples(*source).len() <= u64::MAX,
        ensures
            final(self).samples(cmd) == merged_samples(
                old(self).samples(cmd),
                Some(histogram_samples(*source)),
            ),
            final(self).sample_count(cmd) == old(self).sample_count(cmd) + histogram_samples(
                *source,
            ).len(),
            forall|other: CommandType| other != cmd
                ==> final(self).samples(other) == old(self).samples(other),
    {
        let mut h = match self.take(cmd) {
            Some(h) => h,
            None => match histogram_new() {
                Some(h) => h,
                None => {
                    return ;
                },
            },
        };
        let _ = histogram_add(&mut h, source);
        self.put(cmd, h);
    }
}

/// What one connection gathered since its last snapshot.
pub struct StatsSnapshot {
    pub connection_id: u16,
    pub histograms: HistogramSet,
    pub success_counts: CommandDistribution,
    pub error_counts: ErrorCounts,
}

/// Counts and histograms that belong together: the totals fit in 64 bits,
/// no histogram holds more samples than its command counts successes, and a
/// command has a histogram where it counts a success, and only there.
pub open spec fn consistent_stats(
    histograms: HistogramSet,
    successes: CommandDistribution,
    errors: ErrorCounts,
) -> bool {
    &&& successes.total() <= u64::MAX
    &&& errors.total() <= u64::MAX
    &&& forall|cmd: CommandType| #[trigger]
        histograms.sample_count(cmd) <= successes.count(cmd)
    &&& forall|cmd: CommandType|
        (#[trigger] histograms.samples(cmd)) is Some <==> successes.count(cmd) > 0
}

impl StatsSnapshot {
    /// The counts and histograms of the snapshot belong together.
    pub open spec fn wf(&self) -> bool {
        consistent_stats(self.histograms, self.success_counts, self.error_counts)
    }

    /// Whether the histogram of `cmd` holds no more samples than `cmd` counts
    /// successes, and is there where `cmd` counts any, and only there.
    pub open spec fn measured_as_counted(&self, cmd: CommandType) -> bool {
        &&& self.histograms.sample_count(cmd) <= self.success_counts.count(cmd)
        &&& self.histograms.samples(cmd) is Some <==> self.success_counts.count(cmd) > 0
    }

    /// Whether the histogram of `cmd` goes with the count of `cmd`.
    fn measured(&self, cmd: CommandType) -> (r: bool)
        ensures
            r == self.measured_as_counted(cmd),
    {
        let count: u64 = self.success_counts.count_of(cmd);
        self.histograms.held(cmd) <= count && self.histograms.contains_key(&cmd) == (count > 0)
    }

    /// Whether the counts and histograms of the snapshot belong together.
    pub fn is_sound(&self) -> (r: bool)
        ensures
            r == self.wf(),
    {
        let fits: bool = self.success_counts.sum() <= u64::MAX as u128 && self.error_counts.sum()
            <= u64::MAX as u128;
        let sound: bool = fits && self.measured(CommandType::Get) && self.measured(
            CommandType::Store,
        ) && self.measured(CommandType::Delete) && self.measured(CommandType::Noop);
        proof {
            if sound {
                assert forall|cmd: CommandType| self.measured_as_counted(cmd) by {
                    match cmd {
                        CommandType::Get => {},
                        CommandType::Store => {},
                        CommandType::Delete => {},
                        CommandType::Noop => {},
                    }
                }
            } else if fits {
                assert(!self.measured_as_counted(CommandType::Get) || !self.measured_as_counted(
                    CommandType::Store,
                ) || !self.measured_as_counted(CommandType::Delete) || !self.measured_as_counted(
                    CommandType::Noop,
                ));
            }
        }
        sound
    }
}

/// The latency summary of one kind of command.
#[derive(Debug, Clone, Copy, PartialEq, Eq, Structural)]
pub struct OperationStats {
    pub count: u64,
    pub p50_micros: u64,
    pub p95_micros: u64,
    pub p99_micros: u64,
    pub min_micros: u64,
    pub max_micros: u64,
}

/// The statistics of one connection between two snapshots.
pub struct ConnectionStats {
    pub connection_id: u16,
    histograms: HistogramSet,
    success_counts: CommandDistribution,
    error_counts: ErrorCounts,
}

impl ConnectionStats {
    /// The connection that the statistics are of.
    pub closed spec fn id(&self) -> u16 {
        self.connection_id
    }

    /// The successes counted since the last snapshot.
    pub closed spec fn successes(&self) -> CommandDistribution {
        self.success_counts
    }

    /// The errors counted since the last snapshot.
    pub closed spec fn errors(&self) -> ErrorCounts {
        self.error_counts
    }

    /// The latencies recorded since the last snapshot.
    pub closed spec fn histograms(&self) -> HistogramSet {
        self.histograms
    }

    /// The counts and histograms belong together.
    pub open spec fn wf(&self) -> bool {
        consistent_stats(self.histograms(), self.successes(), self.errors())
    }

    /// Statistics that have counted nothing.
    pub fn new(connection_id: u16) -> (r: ConnectionStats)
        ensures
            r.wf(),
            r.id() == connection_id,
            r.successes() == CommandDistribution::zero(),
            r.errors() == ErrorCounts::zero(),
            forall|cmd: CommandType| r.histograms().samples(cmd) is None,
    {
        ConnectionStats {
            connection_id,
            histograms: HistogramSet::new(),
            success_counts: CommandDistribution::new(),
            error_counts: ErrorCounts::new(),
        }
    }

    /// Whether one more success can be counted.
    pub fn can_record(&self) -> (r: bool)
        requires
            self.wf(),
        ensures
            r == (self.successes().total() < u64::MAX),
    {
        self.success_counts.sum() < u64::MAX as u128
    }

    /// Whether one more error can be counted.
    pub fn can_record_error(&self) -> (r: bool)
        requires
            self.wf(),
        ensures
            r == (self.errors().total() < u64::MAX),
    {
        self.error_counts.sum() < u64::MAX as u128
    }

    /// Counts a success of `cmd` that took `micros` microseconds, and
    /// records the latency in the histogram of `cmd`.
    pub fn record_micros(&mut self, cmd: CommandType, micros: u64)
        requires
            old(self).wf(),
            old(self).successes().total() < u64::MAX,
        ensures
            final(self).wf(),
            final(self).id() == old(self).id(),
            final(self).successes() == old(self).successes().with_count(
                cmd,
                (old(self).successes().count(cmd) + 1) as u64,
            ),
            final(self).successes().total() == old(self).successes().total() + 1,
            final(self).errors() == old(self).errors(),
            recorded_under(old(self).histograms(), cmd, micros, final(self).histograms()),
    {
        proof {
            assert(old(self).histograms().sample_count(cmd) <= old(self).successes().count(cmd));
        }
        self.histograms.record(cmd, micros);
        let count: u64 = self.success_counts.count_of(cmd);
        self.success_counts.insert(cmd, count + 1);
        proof {
            assert forall|c: CommandType| #[trigger]
                self.histograms.sample_count(c) <= self.success_counts.count(c) by {
                assert(old(self).histograms().sample_count(c) <= old(self).successes().count(c));
                if c != cmd {
                    assert(self.histograms.samples(c) == old(self).histograms().samples(c));
                }
            }
        }
    }

    /// Counts a success of `cmd` that took `latency`, and records the
    /// latency in whole microseconds, cut to 64 bits, in the histogram of
    /// `cmd`.
    pub fn record_success(&mut self, cmd_type: CommandType, latency: Duration)
        requires
            old(self).wf(),
            old(self).successes().total() < u64::MAX,
        ensures
            final(self).wf(),
            final(self).id() == old(self).id(),
            final(self).successes() == old(self).successes().with_count(
                cmd_type,
                (old(self).successes().count(cmd_type) + 1) as u64,
            ),
            final(self).successes().total() == old(self).successes().total() + 1,
            final(self).errors() == old(self).errors(),
            recorded_under(
                old(self).histograms(),
                cmd_type,
                micros_of(latency) as u64,
                final(self).histograms(),
            ),
    {
        let micros: u64 = #[verifier::truncate]
        (duration_micros(latency) as u64);
        self.record_micros(cmd_type, micros);
    }

    /// Counts an error of the kind `error_type`.
    pub fn record_error(&mut self, _cmd_type: CommandType, error_type: ErrorType)
        requires
            old(self).wf(),
            old(self).errors().total() < u64::MAX,
        ensures
            final(self).wf(),
            final(self).id() == old(self).id(),
            final(self).errors() == old(self).errors().with_count(
                error_type,
                (old(self).errors().count(error_type) + 1) as u64,
            ),
            final(self).errors().total() == old(self).errors().total() + 1,
            final(self).successes() == old(self).successes(),
            final(self).histograms() == old(self).histograms(),
    {
        let count: u64 = self.error_counts.count_of(error_type);
        self.error_counts.insert(error_type, count + 1);
    }

    /// How many successes were counted since the last snapshot.
    pub fn get_count(&self) -> (r: u64)
        requires
            self.wf(),
        ensures
            r == self.successes().total(),
    {
        self.success_counts.sum() as u64
    }

    /// How many errors were counted since the last snapshot.
    pub fn get_error_count(&self) -> (r: u64)
        requires
            self.wf(),
        ensures
            r == self.errors().total(),
    {
        self.error_counts.timeout + self.error_counts.connection_error
            + self.error_counts.protocol_error
    }

    /// Hands out what was gathered since the last snapshot, and starts
    /// over with nothing.
    pub fn snapshot(&mut self) -> (r: StatsSnapshot)
        requires
            old(self).wf(),
        ensures
            r.wf(),
            r.connection_id == old(self).id(),
            r.success_counts == old(self).successes(),
            r.error_counts == old(self).errors(),
            r.histograms == old(self).histograms(),
            final(self).wf(),
            final(self).id() == old(self).id(),
            final(self).successes() == CommandDistribution::zero(),
            final(self).errors() == ErrorCounts::zero(),
            forall|cmd: CommandType| final(self).histograms().samples(cmd) is None,
    {
        let mut histograms = HistogramSet::new();
        std::mem::swap(&mut self.histograms, &mut histograms);
        let snapshot = StatsSnapshot {
            connection_id: self.connection_id,
            histograms,
            success_counts: self.success_counts,
            error_counts: self.error_counts,
        };
        self.success_counts = CommandDistribution::new();
        self.error_counts = ErrorCounts::new();
        snapshot
    }
}

/// The statistics of all connections, merged from their snapshots.
pub struct AggregatedStats {
    histograms: HistogramSet,
    success_counts: CommandDistribution,
    error_counts: ErrorCounts,
}

impl AggregatedStats {
    /// The successes of all snapshots merged so far.
    pub closed spec fn successes(&self) -> CommandDistribution {
        self.success_counts
    }

    /// The errors of all snapshots merged so far.
    pub closed spec fn errors(&self) -> ErrorCounts {
        self.error_counts
    }

    /// The latencies of all snapshots merged so far.
    pub closed spec fn histograms(&self) -> HistogramSet {
        self.histograms
    }

    /// The counts and histograms belong together.
    pub open spec fn wf(&self) -> bool {
        consistent_stats(self.histograms(), self.successes(), self.errors())
    }

    /// Whether these are the statistics that `before` become when they take
    /// `snapshot` in: every count of successes and of errors grows by the
    /// snapshot's, and the samples of every command take the snapshot's in.
    pub open spec fn took_in(&self, before: &AggregatedStats, snapshot: &StatsSnapshot) -> bool {
        &&& forall|cmd: CommandType|
            self.successes().count(cmd) == before.successes().count(cmd)
                + snapshot.success_counts.count(cmd)
        &&& forall|kind: ErrorType|
            self.errors().count(kind) == before.errors().count(kind)
                + snapshot.error_counts.count(kind)
        &&& forall|cmd: CommandType|
            self.histograms().samples(cmd) == merged_samples(
                before.histograms().samples(cmd),
                #[trigger] snapshot.histograms.samples(cmd),
            )
    }

    /// Whether the counts of `snapshot` can be added to those merged so far.
    pub open spec fn has_room_for(&self, snapshot: &StatsSnapshot) -> bool {
        &&& self.successes().total() + snapshot.success_counts.total() <= u64::MAX
        &&& self.errors().total() + snapshot.error_counts.total() <= u64::MAX
    }

    /// Statistics of no snapshot at all.
    pub fn new() -> (r: AggregatedStats)
        ensures
            r.wf(),
            r.successes() == CommandDistribution::zero(),
            r.errors() == ErrorCounts::zero(),
            forall|cmd: CommandType| r.histograms().samples(cmd) is None,
    {
        AggregatedStats {
            histograms: HistogramSet::new(),
            success_counts: CommandDistribution::new(),
            error_counts: ErrorCounts::new(),
        }
    }

    /// Whether the counts of `snapshot` can be added to those merged so far.
    pub fn can_merge(&self, snapshot: &StatsSnapshot) -> (r: bool)
        ensures
            r == self.has_room_for(snapshot),
    {
        self.success_counts.sum() + snapshot.success_counts.sum() <= u64::MAX as u128
            && self.error_counts.sum() + snapshot.error_counts.sum() <= u64::MAX as u128
    }

    /// Adds what `snapshot` gathered to what was merged so far: count by
    /// count, and the samples of each histogram to the histogram of the same
    /// command.
    pub fn merge(&mut self, snapshot: StatsSnapshot)
        requires
            old(self).wf(),
            snapshot.wf(),
            old(self).has_room_for(&snapshot),
        ensures
            final(self).wf(),
            final(self).took_in(old(self), &snapshot),
            final(self).successes().total() == old(self).successes().total()
                + snapshot.success_counts.total(),
            final(self).errors().total() == old(self).errors().total()
                + snapshot.error_counts.total(),
    {
        let ghost before = old(self).histograms();
        proof {
            Self::lemma_room(before, old(self).successes(), snapshot, CommandType::Get);
            Self::lemma_room(before, old(self).successes(), snapshot, CommandType::Store);
            Self::lemma_room(before, old(self).successes(), snapshot, CommandType::Delete);
            Self::lemma_room(before, old(self).successes(), snapshot, CommandType::Noop);
        }
        self.merge_histogram(CommandType::Get, &snapshot.histograms);
        assert(self.histograms.samples(CommandType::Store) == before.samples(CommandType::Store));
        self.merge_histogram(CommandType::Store, &snapshot.histograms);
        assert(self.histograms.samples(CommandType::Delete) == before.samples(
            CommandType::Delete,
        ));
        self.merge_histogram(CommandType::Delete, &snapshot.histograms);
        assert(self.histograms.samples(CommandType::Noop) == before.samples(CommandType::Noop));
        self.merge_histogram(CommandType::Noop, &snapshot.histograms);
        let s = &snapshot.success_counts;
        self.success_counts = CommandDistribution {
            get: self.success_counts.get + s.get,
            store: self.success_counts.store + s.store,
            delete: self.success_counts.delete + s.delete,
            noop: self.success_counts.noop + s.noop,
        };
        let e = &snapshot.error_counts;
        self.error_counts = ErrorCounts {
            timeout: self.error_counts.timeout + e.timeout,
            connection_error: self.error_counts.connection_error + e.connection_error,
            protocol_error: self.error_counts.protocol_error + e.protocol_error,
        };
        proof {
            assert forall|cmd: CommandType| #[trigger]
                self.histograms.sample_count(cmd) <= self.success_counts.count(cmd) by {
                Self::lemma_room(before, old(self).successes(), snapshot, cmd);
            }
        }
    }

    /// Histograms that hold no more samples than successes were counted
    /// have room for each other where the counts have.
    proof fn lemma_room(
        histograms: HistogramSet,
        successes: CommandDistribution,
        snapshot: StatsSnapshot,
        cmd: CommandType,
    )
        requires
            consistent_stats(histograms, successes, ErrorCounts::zero()),
            snapshot.wf(),
            successes.total() + snapshot.success_counts.total() <= u64::MAX,
        ensures
            histograms.sample_count(cmd) + snapshot.histograms.sample_count(cmd) <= u64::MAX,
            histograms.sample_count(cmd) <= successes.count(cmd),
            snapshot.histograms.sample_count(cmd) <= snapshot.success_counts.count(cmd),
    {
        assert(histograms.sample_count(cmd) <= successes.count(cmd));
        assert(snapshot.histograms.sample_count(cmd) <= snapshot.success_counts.count(cmd));
    }

    /// Adds the samples that `source` holds for `cmd` to those merged so far.
    fn merge_histogram(&mut self, cmd: CommandType, source: &HistogramSet)
        requires
            old(self).histograms.sample_count(cmd) + source.sample_count(cmd) <= u64::MAX,
        ensures
            final(self).success_counts == old(self).success_counts,
            final(self).error_counts == old(self).error_counts,
            final(self).histograms.sample_count(cmd) == old(self).histograms.sample_count(cmd)
                + source.sample_count(cmd),
            final(self).histograms.samples(cmd) == merged_samples(
                old(self).histograms.samples(cmd),
                source.samples(cmd),
            ),
            forall|other: CommandType|
                other != cmd
                    ==> final(self).histograms.samples(other)
                    == old(self).histograms.samples(other),
    {
        match source.get(&cmd) {
            None => {},
            Some(h) => {
                self.histograms.merge(cmd, h);
            },
        }
    }

    /// How many successes all snapshots counted together.
    pub fn total_operations(&self) -> (r: u64)
        requires
            self.wf(),
        ensures
            r == self.successes().total(),
    {
        self.success_counts.sum() as u64
    }

    /// How many successes of `cmd` all snapshots counted together.
    pub fn operation_count(&self, cmd: CommandType) -> (r: u64)
        ensures
            r == self.successes().count(cmd),
    {
        self.success_counts.count_of(cmd)
    }

    /// How many errors of the kind `kind` all snapshots counted together.
    pub fn error_count(&self, kind: ErrorType) -> (r: u64)
        ensures
            r == self.errors().count(kind),
    {
        self.error_counts.count_of(kind)
    }

    /// The latency, in microseconds, that `percent` in a hundred of the
    /// samples of `cmd` do not exceed; `None` where `cmd` was never measured.
    pub fn percentile(&self, cmd_type: CommandType, percent: u8) -> (r: Option<u64>)
        ensures
            r == latency_percentile(self.histograms().samples(cmd_type), percent),
            r matches Some(v) ==> among_samples(self.histograms().samples(cmd_type), v),
    {
        match self.histograms.get(&cmd_type) {
            None => None,
            Some(h) => Some(histogram_percentile(h, percent)),
        }
    }

    /// The latency summary of `cmd`; `None` where `cmd` was never measured.
    pub fn operation_stats(&self, cmd_type: CommandType) -> (r: Option<OperationStats>)
        ensures
            r == latency_summary(
                self.histograms().samples(cmd_type),
                self.successes().count(cmd_type),
            ),
            r matches Some(summary) ==> {
                &&& among_samples(self.histograms().samples(cmd_type), summary.p50_micros)
                &&& among_samples(self.histograms().samples(cmd_type), summary.p95_micros)
                &&& among_samples(self.histograms().samples(cmd_type), summary.p99_micros)
            },
    {
        match self.histograms.get(&cmd_type) {
            None => None,
            Some(h) => Some(
                OperationStats {
                    count: self.success_counts.count_of(cmd_type),
                    p50_micros: histogram_percentile(h, 50),
                    p95_micros: histogram_percentile(h, 95),
                    p99_micros: histogram_percentile(h, 99),
                    min_micros: histogram_min(h),
                    max_micros: histogram_max(h),
                },
            ),
        }
    }

    /// The summary of `cmd` as a row, where `cmd` was measured.
    fn push_operation_row(&self, rows: &mut Vec<(CommandType, OperationStats)>, cmd: CommandType)
        ensures
            final(rows)@ == old(rows)@ + operation_row(self.histograms(), self.successes(), cmd),
    {
        match self.operation_stats(cmd) {
            None => {
                assert(rows@ =~= old(rows)@ + Seq::<(CommandType, OperationStats)>::empty());
            },
            Some(summary) => {
                rows.push((cmd, summary));
                assert(rows@ =~= old(rows)@ + seq![(cmd, summary)]);
            },
        }
    }

    /// The count of `kind` as a row, where it is above zero.
    fn push_error_row(&self, rows: &mut Vec<(ErrorType, u64)>, kind: ErrorType)
        ensures
            final(rows)@ == old(rows)@ + error_row(self.errors(), kind),
    {
        let count: u64 = self.error_count(kind);
        if count > 0 {
            rows.push((kind, count));
            assert(rows@ =~= old(rows)@ + seq![(kind, count)]);
        } else {
            assert(rows@ =~= old(rows)@ + Seq::<(ErrorType, u64)>::empty());
        }
    }

    /// What an export of the statistics lists: a row with its latency
    /// summary for each command that was measured, and a row with its count
    /// for each kind of error that occurred, both in the order of their
    /// declaration. A command that was never measured and a kind that never
    /// occurred have no row.
    pub fn export_rows(&self) -> (r: (Vec<(CommandType, OperationStats)>, Vec<(ErrorType, u64)>))
        ensures
            r.0@ == operation_rows(self.histograms(), self.successes()),
            r.1@ == error_rows(self.errors()),
    {
        let mut operations: Vec<(CommandType, OperationStats)> = Vec::new();
        self.push_operation_row(&mut operations, CommandType::Get);
        self.push_operation_row(&mut operations, CommandType::Store);
        self.push_operation_row(&mut operations, CommandType::Delete);
        self.push_operation_row(&mut operations, CommandType::Noop);
        let mut errors: Vec<(ErrorType, u64)> = Vec::new();
        self.push_error_row(&mut errors, ErrorType::Timeout);
        self.push_error_row(&mut errors, ErrorType::ConnectionError);
        self.push_error_row(&mut errors, ErrorType::ProtocolError);
        proof {
            assert(operations@ =~= operation_rows(self.histograms(), self.successes()));
            assert(errors@ =~= error_rows(self.errors()));
        }
        (operations, errors)
    }
}

/// The row of `cmd` in an export: its latency summary where it was measured,
/// nothing where it was not.
pub open spec fn operation_row(
    histograms: HistogramSet,
    successes: CommandDistribution,
    cmd: CommandType,
) -> Seq<(CommandType, OperationStats)> {
    match latency_summary(histograms.samples(cmd), successes.count(cmd)) {
        Some(summary) => seq![(cmd, summary)],
        None => Seq::empty(),
    }
}

/// The rows of the commands in an export.
pub open spec fn operation_rows(histograms: HistogramSet, successes: CommandDistribution) -> Seq<
    (CommandType, OperationStats),
> {
    operation_row(histograms, successes, CommandType::Get) + operation_row(
        histograms,
        successes,
        CommandType::Store,
    ) + operation_row(histograms, successes, CommandType::Delete) + operation_row(
        histograms,
        successes,
        CommandType::Noop,
    )
}

/// The row of `kind` in an export: its count where that is above zero.
pub open spec fn error_row(errors: ErrorCounts, kind: ErrorType) -> Seq<(ErrorType, u64)> {
    if errors.count(kind) > 0 {
        seq![(kind, errors.count(kind))]
    } else {
        Seq::empty()
    }
}

/// The rows of the error kinds in an export.
pub open spec fn error_rows(errors: ErrorCounts) -> Seq<(ErrorType, u64)> {
    error_row(errors, ErrorType::Timeout) + error_row(errors, ErrorType::ConnectionError)
        + error_row(errors, ErrorType::ProtocolError)
}

/// Whether `value` lies among the samples of a command, no lower than the
/// lowest and no higher than the highest, where the command holds samples
/// and no more than `MAX_EXACT_COUNT` of them.
pub open spec fn among_samples(samples: Option<Multiset<u64>>, value: u64) -> bool {
    samples matches Some(m) ==> (0 < m.len() <= MAX_EXACT_COUNT ==> lowest_value(m) <= value
        <= highest_value(m))
}

/// Samples that hold `value` have a least one.
proof fn lemma_has_least(samples: Multiset<u64>, value: u64)
    requires
        samples.count(value) > 0,
    ensures
        exists|least: u64| is_least(samples, least),
    decreases value,
{
    if exists|lower: u64| samples.count(lower) > 0 && lower < value {
        let lower = choose|lower: u64| samples.count(lower) > 0 && lower < value;
        lemma_has_least(samples, lower);
    } else {
        assert(is_least(samples, value));
    }
}

/// The lowest of samples is one of them, and none of them is lower.
pub proof fn lemma_lowest_value(samples: Multiset<u64>)
    requires
        samples.len() > 0,
    ensures
        is_least(samples, lowest_value(samples)),
{
    vstd::multiset::lemma_multiset_empty_len(samples);
    let some = choose|v: u64| samples.count(v) > 0;
    lemma_has_least(samples, some);
}

/// Whether `cmd` was observed: whether it counts a success.
pub open spec fn observed(stats: AggregatedStats, cmd: CommandType) -> bool {
    stats.successes().count(cmd) > 0
}

/// The percentiles and the summary of a command are defined where the
/// command was observed, and only there, and so an export has a row for the
/// command there, and only there.
pub proof fn lemma_percentiles_of_observed(stats: AggregatedStats, cmd: CommandType, percent: u8)
    requires
        stats.wf(),
    ensures
        latency_percentile(stats.histograms().samples(cmd), percent) is Some <==> observed(
            stats,
            cmd,
        ),
        latency_summary(stats.histograms().samples(cmd), stats.successes().count(cmd)) is Some
            <==> observed(stats, cmd),
        operation_row(stats.histograms(), stats.successes(), cmd).len() == (if observed(
            stats,
            cmd,
        ) {
            1nat
        } else {
            0nat
        }),
{
    assert(stats.histograms().samples(cmd) is Some <==> stats.successes().count(cmd) > 0);
}

/// Two snapshots merged in either order give the same statistics: the same
/// counts of successes and of errors, the same samples for every command,
/// and so the same percentiles.
pub proof fn lemma_merge_in_either_order(
    start: AggregatedStats,
    first: StatsSnapshot,
    second: StatsSnapshot,
    after_first: AggregatedStats,
    one_way: AggregatedStats,
    after_second: AggregatedStats,
    other_way: AggregatedStats,
    cmd: CommandType,
    kind: ErrorType,
    percent: u8,
)
    requires
        after_first.took_in(&start, &first),
        one_way.took_in(&after_first, &second),
        after_second.took_in(&start, &second),
        other_way.took_in(&after_second, &first),
    ensures
        one_way.successes().count(cmd) == other_way.successes().count(cmd),
        one_way.errors().count(kind) == other_way.errors().count(kind),
        one_way.histograms().samples(cmd) == other_way.histograms().samples(cmd),
        latency_percentile(one_way.histograms().samples(cmd), percent) == latency_percentile(
            other_way.histograms().samples(cmd),
            percent,
        ),
{
    lemma_merge_order(
        start.histograms().samples(cmd),
        first.histograms.samples(cmd),
        second.histograms.samples(cmd),
    );
}

/// The percentile of the samples of a command that may not have been
/// measured.
pub open spec fn latency_percentile(samples: Option<Multiset<u64>>, percent: u8) -> Option<u64> {
    match samples {
        None => None,
        Some(m) => Some(percentile_value(m, percent)),
    }
}

/// The latency summary of a command that may not have been measured and that
/// succeeded `count` times.
pub open spec fn latency_summary(samples: Option<Multiset<u64>>, count: u64) -> Option<
    OperationStats,
> {
    match samples {
        None => None,
        Some(m) => Some(
            OperationStats {
                count,
                p50_micros: percentile_value(m, 50),
                p95_micros: percentile_value(m, 95),
                p99_micros: percentile_value(m, 99),
                min_micros: lowest_value(m),
                max_micros: highest_value(m),
            },
        ),
    }
}

impl Default for AggregatedStats {
    fn default() -> (r: AggregatedStats)
        ensures
            r.wf(),
            r.successes() == CommandDistribution::zero(),
    {
        AggregatedStats::new()
    }
}

} // verus!
