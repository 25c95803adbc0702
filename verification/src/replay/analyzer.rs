//! The distributions of a profile: how often each command, key size and
//! value size occurs.

use crate::profile::layout::{distribution_of, lemma_command_counts_sum};
use crate::profile::{CommandDistribution, Event};
use std::collections::HashMap;
use vstd::prelude::*;
use vstd::std_specs::hash::spec_hash_map_iter;
use vstd::std_specs::iter::IteratorSpec;

verus! {

broadcast use vstd::std_specs::hash::group_hash_axioms;

/// How often `v` occurs in `values`.
pub open spec fn occurrences(values: Seq<u32>, v: u32) -> nat
    decreases values.len(),
{
    if values.len() == 0 {
        0
    } else {
        occurrences(values.drop_last(), v) + (if values.last() == v {
            1nat
        } else {
            0nat
        })
    }
}

/// Whether `tally` lists each value of `values` once, with the number of
/// times it occurs, and nothing else.
pub open spec fn is_tally(tally: Seq<(u32, u64)>, values: Seq<u32>) -> bool {
    &&& forall|i: int, j: int| 0 <= i < j < tally.len() ==> tally[i].0 != tally[j].0
    &&& forall|i: int|
        0 <= i < tally.len() ==> (#[trigger] tally[i]).1 == occurrences(values, tally[i].0)
            && tally[i].1 >= 1
    &&& forall|k: int| 0 <= k < values.len() ==> lists(tally, #[trigger] values[k])
}

/// Whether `tally` has an entry for `v`.
pub open spec fn lists(tally: Seq<(u32, u64)>, v: u32) -> bool {
    exists|i: int| 0 <= i < tally.len() && (#[trigger] tally[i]).0 == v
}

/// Whether `counts` holds each value of `values` with the number of times
/// it occurs, and nothing else.
pub open spec fn counts_of(counts: Map<u32, u64>, values: Seq<u32>) -> bool {
    &&& forall|v: u32| #[trigger] counts.contains_key(v) <==> occurrences(values, v) > 0
    &&& forall|v: u32| #[trigger] counts.contains_key(v) ==> counts[v] == occurrences(values, v)
}

/// The key sizes of `events`, in order.
pub open spec fn key_sizes(events: Seq<Event>) -> Seq<u32> {
    events.map_values(|e: Event| e.key_size)
}

/// The value sizes of those of `events` that have one, in order.
pub open spec fn value_sizes(events: Seq<Event>) -> Seq<u32>
    decreases events.len(),
{
    if events.len() == 0 {
        Seq::empty()
    } else {
        match events.last().value_size {
            Some(v) => value_sizes(events.drop_last()).push(v),
            None => value_sizes(events.drop_last()),
        }
    }
}

/// The distributions of a profile.
#[derive(Debug)]
pub struct AnalysisResult {
    pub total_events: u64,
    pub command_distribution: CommandDistribution,
    /// Each key size that occurs, with the number of events that have it.
    pub key_size_distribution: Vec<(u32, u64)>,
    /// Each value size that occurs, with the number of events that have it.
    pub value_size_distribution: Vec<(u32, u64)>,
}

/// An occurrence more of `v` is an occurrence more of `v` alone.
proof fn lemma_occurrences_push(values: Seq<u32>, v: u32, w: u32)
    ensures
        occurrences(values.push(v), w) == occurrences(values, w) + (if v == w {
            1nat
        } else {
            0nat
        }),
        occurrences(values, w) <= values.len(),
    decreases values.len(),
{
    assert(values.push(v).drop_last() =~= values);
    if values.len() > 0 {
        lemma_occurrences_push(values.drop_last(), values.last(), w);
        assert(values.drop_last().push(values.last()) =~= values);
    }
}

/// A value that occurs is counted.
proof fn lemma_occurrence_counts(values: Seq<u32>, k: int)
    requires
        0 <= k < values.len(),
    ensures
        occurrences(values, values[k]) > 0,
    decreases values.len(),
{
    if k < values.len() - 1 {
        lemma_occurrence_counts(values.drop_last(), k);
    }
}

/// Counts one occurrence more of `v` in `counts`.
fn count_value(counts: &mut HashMap<u32, u64>, v: u32, Ghost(values): Ghost<Seq<u32>>)
    requires
        counts_of(old(counts)@, values),
        values.len() < u64::MAX,
    ensures
        counts_of(final(counts)@, values.push(v)),
{
    proof {
        assert forall|w: u32|
            occurrences(values.push(v), w) == occurrences(values, w) + (if v == w {
                1nat
            } else {
                0nat
            }) && occurrences(values, w) <= values.len() by {
            lemma_occurrences_push(values, v, w);
        }
        lemma_occurrences_push(values, v, v);
    }
    let count: u64 = match counts.get(&v) {
        Some(c) => *c,
        None => 0,
    };
    counts.insert(v, count + 1);
}

/// The entries of `counts`, in the order in which the map is walked.
fn entries_of(counts: &HashMap<u32, u64>, Ghost(values): Ghost<Seq<u32>>) -> (r: Vec<(u32, u64)>)
    requires
        counts_of(counts@, values),
    ensures
        is_tally(r@, values),
{
    let mut out: Vec<(u32, u64)> = Vec::new();
    let ghost order = spec_hash_map_iter(counts).remaining();
    for entry in walk: counts.iter()
        invariant
            walk.seq() == order,
            out@.len() == walk.index(),
            forall|j: int|
                0 <= j < out@.len() ==> (#[trigger] out@[j]) == (*order[j].0, *order[j].1),
    {
        out.push((*entry.0, *entry.1));
    }
    proof {
        let tally = out@;
        assert(tally.len() == order.len());
        assert(order.no_duplicates());
        assert forall|k: int| 0 <= k < values.len() implies lists(tally, #[trigger] values[k]) by {
            lemma_occurrence_counts(values, k);
            let v = values[k];
            assert(counts@.contains_key(v));
            assert(order.contains((&v, &counts@[v])));
            let i = choose|i: int| 0 <= i < order.len() && order[i] == (&v, &counts@[v]);
            assert(tally[i].0 == v);
        }
        assert forall|i: int| 0 <= i < tally.len() implies (#[trigger] tally[i]).1 == occurrences(
            values,
            tally[i].0,
        ) && tally[i].1 >= 1 by {
            assert(counts@.contains_key(*order[i].0));
            assert(counts@[*order[i].0] == *order[i].1);
        }
        assert forall|i: int, j: int| 0 <= i < j < tally.len() implies tally[i].0
            != tally[j].0 by {
            if tally[i].0 == tally[j].0 {
                assert(counts@.contains_key(*order[i].0));
                assert(counts@[*order[i].0] == *order[i].1);
                assert(counts@.contains_key(*order[j].0));
                assert(counts@[*order[j].0] == *order[j].1);
                assert(order[i] == order[j]);
            }
        }
    }
    out
}

/// Analyses the events of a profile.
pub struct DistributionAnalyzer;

impl DistributionAnalyzer {
    /// The distributions of `events`: their number, the number of events of
    /// each command, and each key size and value size that occurs with the
    /// number of events that have it. The sizes stand in the order in which
    /// the maps that count them are walked, which is not fixed.
    pub fn analyze(events: &[Event]) -> (r: AnalysisResult)
        ensures
            r.total_events == events@.len(),
            r.command_distribution == distribution_of(events@),
            r.command_distribution.total() == events@.len(),
            is_tally(r.key_size_distribution@, key_sizes(events@)),
            is_tally(r.value_size_distribution@, value_sizes(events@)),
    {
        let mut commands = CommandDistribution::new();
        let mut key_counts: HashMap<u32, u64> = HashMap::new();
        let mut value_counts: HashMap<u32, u64> = HashMap::new();
        let n: usize = events.len();
        let mut i: usize = 0;
        proof {
            assert(events@.take(0) =~= Seq::<Event>::empty());
            assert(key_sizes(events@.take(0)) =~= Seq::<u32>::empty());
        }
        while i < n
            invariant
                i <= n,
                n == events@.len(),
                commands == distribution_of(events@.take(i as int)),
                counts_of(key_counts@, key_sizes(events@.take(i as int))),
                counts_of(value_counts@, value_sizes(events@.take(i as int))),
                value_sizes(events@.take(i as int)).len() <= i,
            decreases n - i,
        {
            let event = &events[i];
            let ghost seen = events@.take(i as int);
            let ghost next = events@.take(i + 1);
            proof {
                assert(next.drop_last() =~= seen);
                assert(next.last() == *event);
                lemma_command_counts_sum(seen);
                lemma_command_counts_sum(next);
                assert(key_sizes(next) =~= key_sizes(seen).push(event.key_size));
            }
            let count: u64 = commands.count_of(event.cmd_type);
            commands.insert(event.cmd_type, count + 1);
            count_value(&mut key_counts, event.key_size, Ghost(key_sizes(seen)));
            match event.value_size {
                Some(v) => {
                    count_value(&mut value_counts, v, Ghost(value_sizes(seen)));
                },
                None => {},
            }
            i = i + 1;
        }
        proof {
            assert(events@.take(n as int) =~= events@);
            lemma_command_counts_sum(events@);
        }
        AnalysisResult {
            total_events: n as u64,
            command_distribution: commands,
            key_size_distribution: entries_of(&key_counts, Ghost(key_sizes(events@))),
            value_size_distribution: entries_of(&value_counts, Ghost(value_sizes(events@))),
        }
    }
}

} // verus!
