//! Synthetic traffic that follows the distributions of a profile.

use crate::profile::{CommandDistribution, CommandType, Event, Flags};
use crate::replay::analyzer::AnalysisResult;
use rand::rngs::ThreadRng;
use rand::Rng;
use vstd::prelude::*;

verus! {

/// The random number generator of `rand` that is seeded for each thread.
#[verifier::external_type_specification]
#[verifier::external_body]
pub struct ExThreadRng(ThreadRng);

/// Calls `rand::thread_rng`: the random number generator of this thread.
#[verifier::external_body]
fn thread_generator() -> (r: ThreadRng) {
    rand::thread_rng()
}

/// Calls `Rng::gen::<u64>`: a random number, of which nothing is known.
#[verifier::external_body]
fn draw_u64(rng: &mut ThreadRng) -> (r: u64) {
    rng.gen::<u64>()
}

/// Calls `Rng::gen::<u16>`: a random number, of which nothing is known.
#[verifier::external_body]
fn draw_u16(rng: &mut ThreadRng) -> (r: u16) {
    rng.gen::<u16>()
}

/// How many connections the synthetic traffic is spread over.
pub const SYNTHETIC_CONNECTIONS: u16 = 4;

/// The key size of a profile without key sizes.
pub const DEFAULT_KEY_SIZE: u32 = 10;

/// The value size of a profile without value sizes.
pub const DEFAULT_VALUE_SIZE: u32 = 100;

/// The random numbers that one synthetic event is made of.
#[derive(Debug, Clone, Copy)]
pub struct Draws {
    pub command: u64,
    pub key_size: u64,
    pub value_size: u64,
    pub timestamp: u64,
    pub connection: u16,
    pub key_hash: u64,
}

/// The sum of the counts of `tally`.
pub open spec fn tally_total(tally: Seq<(u32, u64)>) -> nat
    decreases tally.len(),
{
    if tally.len() == 0 {
        0
    } else {
        tally[0].1 as nat + tally_total(tally.drop_first())
    }
}

/// The value of `tally` whose share of the counts the number `r` falls
/// into, the shares taken in the order of the entries; `default` where `r`
/// falls behind them all.
pub open spec fn weighted_pick(tally: Seq<(u32, u64)>, r: nat, default: u32) -> u32
    decreases tally.len(),
{
    if tally.len() == 0 {
        default
    } else if r < tally[0].1 {
        tally[0].0
    } else {
        weighted_pick(tally.drop_first(), (r - tally[0].1) as nat, default)
    }
}

/// The value that the random number `draw` picks from `tally`: each value
/// with a chance in proportion to its count; `default` where nothing is
/// counted.
pub open spec fn sampled(tally: Seq<(u32, u64)>, draw: u64, default: u32) -> u32 {
    if tally_total(tally) == 0 {
        default
    } else {
        weighted_pick(tally, draw as nat % tally_total(tally), default)
    }
}

/// A command distribution as a tally of command tags.
pub open spec fn command_tally(d: CommandDistribution) -> Seq<(u32, u64)> {
    seq![(0u32, d.get), (1u32, d.store), (2u32, d.delete), (3u32, d.noop)]
}

/// The command that the random number `draw` picks from `d`: a get where
/// nothing is counted.
pub open spec fn sampled_command(d: CommandDistribution, draw: u64) -> CommandType {
    match CommandType::spec_from_index(sampled(command_tally(d), draw, 0)) {
        Some(cmd) => cmd,
        None => CommandType::Get,
    }
}

/// The synthetic event that the random numbers `draws` make of the
/// distributions `analysis`.
pub open spec fn synthetic_event(analysis: AnalysisResult, draws: Draws) -> Event {
    let cmd_type = sampled_command(analysis.command_distribution, draws.command);
    let value = sampled(analysis.value_size_distribution@, draws.value_size, DEFAULT_VALUE_SIZE);
    Event {
        timestamp: draws.timestamp,
        conn_id: draws.connection % SYNTHETIC_CONNECTIONS,
        cmd_type,
        flags: Flags::spec_from_bits(0),
        key_hash: draws.key_hash,
        key_size: sampled(analysis.key_size_distribution@, draws.key_size, DEFAULT_KEY_SIZE),
        value_size: if cmd_type == CommandType::Store && value != 0 {
            Some(value)
        } else {
            None
        },
    }
}

/// The sum of the counts of `tally`.
fn total_of(tally: &[(u32, u64)]) -> (r: u128)
    ensures
        r == tally_total(tally@),
{
    let n: usize = tally.len();
    let mut sum: u128 = 0;
    let mut i: usize = n;
    proof {
        assert(tally@.skip(n as int) =~= Seq::<(u32, u64)>::empty());
    }
    while i > 0
        invariant
            i <= n,
            n == tally@.len(),
            sum == tally_total(tally@.skip(i as int)),
            sum <= (n - i) * u64::MAX,
        decreases i,
    {
        i = i - 1;
        proof {
            assert(tally@.skip(i as int).drop_first() =~= tally@.skip(i + 1));
            assert((n - i) * u64::MAX == (n - i - 1) * u64::MAX + u64::MAX) by (nonlinear_arith);
            assert(n * u64::MAX <= usize::MAX * u64::MAX) by (nonlinear_arith)
                requires
                    n <= usize::MAX,
            ;
            assert((n - i) * u64::MAX <= n * u64::MAX) by (nonlinear_arith)
                requires
                    0 <= i <= n,
            ;
        }
        sum = sum + tally[i].1 as u128;
    }
    proof {
        assert(tally@.skip(0) =~= tally@);
    }
    sum
}

/// Picks from `tally` with the random number `draw`.
pub fn sample(tally: &[(u32, u64)], draw: u64, default: u32) -> (r: u32)
    ensures
        r == sampled(tally@, draw, default),
{
    let total: u128 = total_of(tally);
    if total == 0 {
        return default;
    }
    let mut r: u128 = draw as u128 % total;
    let mut i: usize = 0;
    proof {
        assert(tally@.skip(0) =~= tally@);
    }
    while i < tally.len()
        invariant
            i <= tally@.len(),
            total == tally_total(tally@),
            total != 0,
            weighted_pick(tally@, (draw as nat) % (total as nat), default) == weighted_pick(
                tally@.skip(i as int),
                r as nat,
                default,
            ),
        decreases tally@.len() - i,
    {
        let (value, count) = tally[i];
        proof {
            assert(tally@.skip(i as int).drop_first() =~= tally@.skip(i + 1));
            assert(tally@.skip(i as int)[0] == tally@[i as int]);
        }
        if r < count as u128 {
            return value;
        }
        r = r - count as u128;
        i = i + 1;
    }
    default
}

/// Makes one synthetic event of the distributions `analysis` and the random
/// numbers `draws`.
pub fn synthesize(analysis: &AnalysisResult, draws: Draws) -> (r: Event)
    ensures
        r == synthetic_event(*analysis, draws),
{
    let d = &analysis.command_distribution;
    let tally: [(u32, u64); 4] = [(0, d.get), (1, d.store), (2, d.delete), (3, d.noop)];
    assert(tally@ =~= command_tally(analysis.command_distribution));
    let cmd_type = match CommandType::from_index(sample(tally.as_slice(), draws.command, 0)) {
        Some(cmd) => cmd,
        None => CommandType::Get,
    };
    let key_size: u32 = sample(
        analysis.key_size_distribution.as_slice(),
        draws.key_size,
        DEFAULT_KEY_SIZE,
    );
    let value: u32 = sample(
        analysis.value_size_distribution.as_slice(),
        draws.value_size,
        DEFAULT_VALUE_SIZE,
    );
    Event {
        timestamp: draws.timestamp,
        conn_id: draws.connection % SYNTHETIC_CONNECTIONS,
        cmd_type,
        flags: Flags::from_bits(0),
        key_hash: draws.key_hash,
        key_size,
        value_size: if cmd_type == CommandType::Store && value != 0 {
            Some(value)
        } else {
            None
        },
    }
}

/// Makes synthetic events that follow the distributions of a profile.
pub struct TrafficGenerator {
    analysis: AnalysisResult,
    rng: ThreadRng,
}

impl TrafficGenerator {
    /// The distributions that the events follow.
    pub closed spec fn analysis(&self) -> AnalysisResult {
        self.analysis
    }

    /// A generator of events that follow `analysis`.
    pub fn new(analysis: AnalysisResult) -> (r: TrafficGenerator)
        ensures
            r.analysis() == analysis,
    {
        TrafficGenerator { analysis, rng: thread_generator() }
    }

    /// The next synthetic event: what some random numbers make of the
    /// distributions.
    pub fn next_command(&mut self) -> (r: Event)
        ensures
            final(self).analysis() == old(self).analysis(),
            exists|draws: Draws| r == synthetic_event(old(self).analysis(), draws),
    {
        let command: u64 = draw_u64(&mut self.rng);
        let key_size: u64 = draw_u64(&mut self.rng);
        let value_size: u64 = draw_u64(&mut self.rng);
        let timestamp: u64 = draw_u64(&mut self.rng);
        let connection: u16 = draw_u16(&mut self.rng);
        let key_hash: u64 = draw_u64(&mut self.rng);
        let draws = Draws { command, key_size, value_size, timestamp, connection, key_hash };
        synthesize(&self.analysis, draws)
    }
}

} // verus!
