//! The ordered reduction of a batch.
//!
//! Workers hand their results in as they come; a result goes to the place of its
//! task. Then the results are taken task by task, and the updates of a task key
//! by key. Sums of floating-point numbers are made by a function that the caller
//! gives; what is summed, in which order, and what is done with it, is decided
//! here.
use vstd::prelude::*;

use crate::batch::MultiwayHoldemBatchSolver;
use crate::batch_metrics::BatchMetricsView;
use crate::batch_store::{batch_key_ok, open_entry, set_entry};
use crate::bits::{all_finite, finite, is_above_zero, is_finite};
use crate::checkpoint::{
    copy_words, entry_views, fresh_infoset, table_view, InfoSetData, InfoSetView,
};
use crate::parallel::{
    after_steps, check_parallel, count_run, is_countable, is_plan, is_share,
    lemma_workers_share_the_tasks, plan_batch, result_countable, result_counted, smaller, tasks_of,
    BatchPlan, ParallelBatchTask, ParallelError, ParallelTaskRun,
};
use crate::solver::{floored, floored_all};
use crate::sums::{add_all, describes, summed};
use crate::table::Key;

verus! {

/// The information set of `key`, or a new one with `count` actions.
pub open spec fn known(infosets: Map<Key, InfoSetView>, key: Key, count: nat) -> InfoSetView {
    if infosets.dom().contains(key) {
        infosets[key]
    } else {
        fresh_infoset(count as usize)
    }
}

/// The first action from `from` on with a sum that is not finite.
pub open spec fn first_overflow(regrets: Seq<u64>, strategies: Seq<u64>, from: int) -> int
    decreases regrets.len() - from,
{
    if from >= regrets.len() || !finite(regrets[from]) || !finite(strategies[from]) {
        from
    } else {
        first_overflow(regrets, strategies, from + 1)
    }
}

/// An information set that has taken the new sums of its first `count` actions, no
/// regret below zero.
pub open spec fn taken(
    data: InfoSetView,
    regrets: Seq<u64>,
    strategies: Seq<u64>,
    count: int,
) -> InfoSetView {
    InfoSetView {
        regret_sum: Seq::new(
            data.regret_sum.len(),
            |a: int|
                if a < count {
                    floored(regrets[a])
                } else {
                    data.regret_sum[a]
                },
        ),
        strategy_sum: Seq::new(
            data.strategy_sum.len(),
            |a: int|
                if a < count {
                    strategies[a]
                } else {
                    data.strategy_sum[a]
                },
        ),
        visits: data.visits,
    }
}

/// The information sets after one update, and what stopped it: its changes are
/// added to the sums action by action, then its visits are counted. What was added
/// before an update was stopped stays.
pub open spec fn delta_applied(
    infosets: Map<Key, InfoSetView>,
    key: Key,
    delta: InfoSetView,
    sum_of: spec_fn(u64, u64) -> u64,
) -> (Map<Key, InfoSetView>, Option<ParallelError>) {
    let count = delta.regret_sum.len();
    let data = known(infosets, key, count);
    let regrets = summed(data.regret_sum, delta.regret_sum, sum_of);
    let strategies = summed(data.strategy_sum, delta.strategy_sum, sum_of);
    let stop = first_overflow(regrets, strategies, 0);
    if data.regret_sum.len() != count || data.strategy_sum.len() != count
        || delta.strategy_sum.len() != count {
        (
            infosets.insert(key, data),
            Some(
                ParallelError::UpdateActionCount {
                    player: key.major as usize,
                    node: key.middle as usize,
                },
            ),
        )
    } else if stop < count {
        (
            infosets.insert(key, taken(data, regrets, strategies, stop)),
            Some(ParallelError::NonFinite),
        )
    } else if data.visits + delta.visits > u64::MAX {
        (
            infosets.insert(key, taken(data, regrets, strategies, stop)),
            Some(ParallelError::VisitCountOverflow),
        )
    } else {
        let now = InfoSetView {
            visits: (data.visits + delta.visits) as u64,
            ..taken(data, regrets, strategies, stop)
        };
        (infosets.insert(key, now), None)
    }
}

/// A finished update leaves all sums added and no regret below zero.
pub proof fn lemma_finished_update_adds_all(
    infosets: Map<Key, InfoSetView>,
    key: Key,
    delta: InfoSetView,
    sum_of: spec_fn(u64, u64) -> u64,
)
    requires
        delta_applied(infosets, key, delta, sum_of).1 is None,
    ensures
        ({
            let data = known(infosets, key, delta.regret_sum.len());
            let now = delta_applied(infosets, key, delta, sum_of).0[key];
            &&& now.regret_sum == floored_all(summed(data.regret_sum, delta.regret_sum, sum_of))
            &&& now.strategy_sum == summed(data.strategy_sum, delta.strategy_sum, sum_of)
            &&& now.visits == data.visits + delta.visits
            &&& all_finite(summed(data.regret_sum, delta.regret_sum, sum_of))
            &&& all_finite(now.strategy_sum)
        }),
{
    let data = known(infosets, key, delta.regret_sum.len());
    let regrets = summed(data.regret_sum, delta.regret_sum, sum_of);
    let strategies = summed(data.strategy_sum, delta.strategy_sum, sum_of);
    let now = delta_applied(infosets, key, delta, sum_of).0[key];
    lemma_first_overflow(regrets, strategies, 0);
    assert(now.regret_sum =~= floored_all(regrets));
    assert(now.strategy_sum =~= strategies);
    assert forall|a: int| 0 <= a < strategies.len() implies finite(#[trigger] strategies[a]) by {
        assert(finite(regrets[a]));
    }
}

proof fn lemma_first_overflow(regrets: Seq<u64>, strategies: Seq<u64>, from: int)
    requires
        0 <= from <= regrets.len(),
    ensures
        from <= first_overflow(regrets, strategies, from) <= regrets.len(),
        forall|a: int|
            from <= a < first_overflow(regrets, strategies, from) ==> finite(
                #[trigger] regrets[a],
            ) && finite(strategies[a]),
    decreases regrets.len() - from,
{
    if from < regrets.len() && finite(regrets[from]) && finite(strategies[from]) {
        lemma_first_overflow(regrets, strategies, from + 1);
    }
}

/// The information sets after the first `count` updates of a task, and what
/// stopped them.
pub open spec fn deltas_applied(
    infosets: Map<Key, InfoSetView>,
    deltas: Seq<(Key, InfoSetView)>,
    count: nat,
    sum_of: spec_fn(u64, u64) -> u64,
) -> (Map<Key, InfoSetView>, Option<ParallelError>)
    decreases count,
{
    if count == 0 {
        (infosets, None)
    } else {
        let (before, error) = deltas_applied(infosets, deltas, (count - 1) as nat, sum_of);
        let (key, delta) = deltas[count - 1];
        if error is Some {
            (before, error)
        } else {
            delta_applied(before, key, delta, sum_of)
        }
    }
}

/// What a reduction changes.
#[verifier::ext_equal]
pub struct Reduced {
    pub infosets: Map<Key, InfoSetView>,
    pub metrics: BatchMetricsView,
    pub attempts: int,
}

/// The state after one result. Attempts are counted first, then the updates are
/// applied, and last the counters grow.
pub open spec fn result_reduced(
    state: Reduced,
    task: nat,
    result: Option<ParallelTaskRun>,
    sum_of: spec_fn(u64, u64) -> u64,
) -> (Reduced, Option<ParallelError>) {
    match result {
        None => (state, Some(ParallelError::MissingResult { task: task as usize })),
        Some(run) => {
            let attempts = state.attempts + run.private_sampling_attempts;
            let deltas = entry_views(run.deltas.entries@);
            let (infosets, error) = deltas_applied(state.infosets, deltas, deltas.len(), sum_of);
            if attempts > u64::MAX {
                (state, Some(ParallelError::AttemptCountOverflow))
            } else if error is Some {
                (Reduced { infosets, metrics: state.metrics, attempts }, error)
            } else {
                (
                    Reduced { infosets, metrics: result_counted(state.metrics, run), attempts },
                    None,
                )
            }
        },
    }
}

/// The state after the first `count` results, in the order of their tasks, and
/// what stopped the reduction.
pub open spec fn results_reduced(
    state: Reduced,
    results: Seq<Option<ParallelTaskRun>>,
    count: nat,
    sum_of: spec_fn(u64, u64) -> u64,
) -> (Reduced, Option<ParallelError>)
    decreases count,
{
    if count == 0 {
        (state, None)
    } else {
        let (before, error) = results_reduced(state, results, (count - 1) as nat, sum_of);
        if error is Some {
            (before, error)
        } else {
            result_reduced(before, (count - 1) as nat, results[count - 1], sum_of)
        }
    }
}

/// The counters after the first `count` results.
pub open spec fn metrics_after(
    metrics: BatchMetricsView,
    results: Seq<Option<ParallelTaskRun>>,
    count: nat,
) -> BatchMetricsView
    decreases count,
{
    if count == 0 {
        metrics
    } else {
        let before = metrics_after(metrics, results, (count - 1) as nat);
        match results[count - 1] {
            Some(run) => result_counted(before, run),
            None => before,
        }
    }
}

/// A result for a table of `players` seats.
pub open spec fn result_fits(result: Option<ParallelTaskRun>, players: usize) -> bool {
    result matches Some(run) ==> {
        &&& run.wf()
        &&& run.traverser < players
        &&& run.visits_by_player@.len() == players
    }
}

pub open spec fn results_fit(results: Seq<Option<ParallelTaskRun>>, players: usize) -> bool {
    forall|i: int| 0 <= i < results.len() ==> result_fits(#[trigger] results[i], players)
}

/// No counter would pass its limit.
pub open spec fn results_countable(
    metrics: BatchMetricsView,
    results: Seq<Option<ParallelTaskRun>>,
    count: nat,
) -> bool
    decreases count,
{
    if count == 0 {
        true
    } else {
        &&& results_countable(metrics, results, (count - 1) as nat)
        &&& results[count - 1] matches Some(run) ==> result_countable(
            metrics_after(metrics, results, (count - 1) as nat),
            run,
        )
    }
}

/// Only the information sets may differ.
pub open spec fn infosets_apart(before: MultiwayHoldemBatchSolver, after: MultiwayHoldemBatchSolver) -> bool {
    after == (MultiwayHoldemBatchSolver { infosets: after.infosets, ..before })
}

/// Only the information sets and the counters may differ.
pub open spec fn tallies_apart(before: MultiwayHoldemBatchSolver, after: MultiwayHoldemBatchSolver) -> bool {
    after == (MultiwayHoldemBatchSolver {
        infosets: after.infosets,
        metrics: after.metrics,
        ..before
    })
}

/// The sums of an information set after it has taken new ones, action by action up
/// to one that is not finite, and the number of actions taken.
fn take_sums(entry: &InfoSetData, regrets: &Vec<u64>, strategies: &Vec<u64>) -> (sums: (
    Vec<u64>,
    Vec<u64>,
    usize,
))
    requires
        entry.regret_sum@.len() == regrets@.len(),
        entry.strategy_sum@.len() == regrets@.len(),
        strategies@.len() == regrets@.len(),
    ensures
        sums.2 == first_overflow(regrets@, strategies@, 0),
        ({
            let now = taken(entry@, regrets@, strategies@, sums.2 as int);
            sums.0@ == now.regret_sum && sums.1@ == now.strategy_sum
        }),
{
    let mut regret_sum = copy_words(&entry.regret_sum);
    let mut strategy_sum = copy_words(&entry.strategy_sum);
    let mut stop: usize = 0;
    assert(entry@.regret_sum == entry.regret_sum@ && entry@.strategy_sum == entry.strategy_sum@);
    assert(regret_sum@ =~= taken(entry@, regrets@, strategies@, 0).regret_sum);
    assert(strategy_sum@ =~= taken(entry@, regrets@, strategies@, 0).strategy_sum);
    while stop < regrets.len() && is_finite(regrets[stop]) && is_finite(strategies[stop])
        invariant
            stop <= regrets@.len(),
            entry.regret_sum@.len() == regrets@.len(),
            entry.strategy_sum@.len() == regrets@.len(),
            strategies@.len() == regrets@.len(),
            entry@.regret_sum == entry.regret_sum@,
            entry@.strategy_sum == entry.strategy_sum@,
            regret_sum@ == taken(entry@, regrets@, strategies@, stop as int).regret_sum,
            strategy_sum@ == taken(entry@, regrets@, strategies@, stop as int).strategy_sum,
            first_overflow(regrets@, strategies@, 0) == first_overflow(
                regrets@,
                strategies@,
                stop as int,
            ),
        decreases regrets.len() - stop,
    {
        let regret = regrets[stop];
        regret_sum[stop] = if is_above_zero(regret) {
            regret
        } else {
            0
        };
        strategy_sum[stop] = strategies[stop];
        stop = stop + 1;
        assert(regret_sum@ =~= taken(entry@, regrets@, strategies@, stop as int).regret_sum);
        assert(strategy_sum@ =~= taken(entry@, regrets@, strategies@, stop as int).strategy_sum);
    }
    (regret_sum, strategy_sum, stop)
}

impl MultiwayHoldemBatchSolver {
    /// Applies one update of a task.
    pub fn apply_delta<F: Fn(u64, u64) -> u64>(&mut self, key: Key, delta: &InfoSetData, plus: &F) -> (result:
        Result<(), ParallelError>)
        requires
            old(self).wf(),
            batch_key_ok(key),
            forall|a: u64, b: u64| call_requires(*plus, (a, b)),
        ensures
            final(self).wf(),
            infosets_apart(*old(self), *final(self)),
            forall|sum_of: spec_fn(u64, u64) -> u64| #[trigger]
                describes(*plus, sum_of) ==> {
                    let (infosets, error) = delta_applied(
                        table_view(old(self).infosets),
                        key,
                        delta@,
                        sum_of,
                    );
                    &&& table_view(final(self).infosets) == infosets
                    &&& result == match error {
                        Some(error) => Err::<(), ParallelError>(error),
                        None => Ok::<(), ParallelError>(()),
                    }
                },
    {
        let ghost before = table_view(self.infosets);
        let count = delta.regret_sum.len();
        let change = ParallelError::UpdateActionCount {
            player: key.major as usize,
            node: key.middle as usize,
        };
        let ghost data = known(before, key, count as nat);
        assert(delta@.regret_sum == delta.regret_sum@ && delta@.strategy_sum == delta.strategy_sum@);
        let index = match open_entry(&mut self.infosets, key, count) {
            Ok(index) => index,
            Err(_) => {
                assert(before.insert(key, data) =~= before);
                return Err(change);
            },
        };
        let entry = &self.infosets.entries[index].1;
        proof {
            assert(entry@ == data);
            assert(table_view(self.infosets) =~= before.insert(key, data));
            assert(data.regret_sum == entry.regret_sum@ && data.strategy_sum
                == entry.strategy_sum@);
        }
        if entry.strategy_sum.len() != count || delta.strategy_sum.len() != count {
            return Err(change);
        }
        let regrets = add_all(&entry.regret_sum, &delta.regret_sum, plus);
        let strategies = add_all(&entry.strategy_sum, &delta.strategy_sum, plus);
        let (regret_sum, strategy_sum, stop) = take_sums(entry, &regrets, &strategies);
        let known_visits = entry.visits;
        let total = known_visits.checked_add(delta.visits);
        let visits = if stop < count {
            known_visits
        } else {
            match total {
                Some(total) => total,
                None => known_visits,
            }
        };
        let ghost opened = self.infosets;
        set_entry(&mut self.infosets, index, regret_sum, strategy_sum, visits);
        proof {
            let now = InfoSetView { visits, ..taken(data, regrets@, strategies@, stop as int) };
            assert(self.infosets.entries@[index as int].1@ == now);
            assert(table_view(self.infosets) =~= table_view(opened).insert(key, now));
            assert(table_view(self.infosets) =~= before.insert(key, now));
            lemma_first_overflow(regrets@, strategies@, 0);
        }
        if stop < count {
            return Err(ParallelError::NonFinite);
        }
        if total.is_none() {
            return Err(ParallelError::VisitCountOverflow);
        }
        Ok(())
    }

    /// Applies the updates of a task, key by key.
    fn apply_deltas<F: Fn(u64, u64) -> u64>(&mut self, run: &ParallelTaskRun, plus: &F) -> (result:
        Result<(), ParallelError>)
        requires
            old(self).wf(),
            run.wf(),
            forall|a: u64, b: u64| call_requires(*plus, (a, b)),
        ensures
            final(self).wf(),
            infosets_apart(*old(self), *final(self)),
            forall|sum_of: spec_fn(u64, u64) -> u64| #[trigger]
                describes(*plus, sum_of) ==> {
                    let deltas = entry_views(run.deltas.entries@);
                    let (infosets, error) = deltas_applied(
                        table_view(old(self).infosets),
                        deltas,
                        deltas.len(),
                        sum_of,
                    );
                    &&& table_view(final(self).infosets) == infosets
                    &&& result == match error {
                        Some(error) => Err::<(), ParallelError>(error),
                        None => Ok::<(), ParallelError>(()),
                    }
                },
    {
        let ghost start = *self;
        let ghost before = table_view(self.infosets);
        let ghost deltas = entry_views(run.deltas.entries@);
        let mut index: usize = 0;
        while index < run.deltas.entries.len()
            invariant
                index <= run.deltas.entries@.len(),
                self.wf(),
                run.wf(),
                deltas == entry_views(run.deltas.entries@),
                infosets_apart(start, *self),
                forall|a: u64, b: u64| call_requires(*plus, (a, b)),
                forall|sum_of: spec_fn(u64, u64) -> u64| #[trigger]
                    describes(*plus, sum_of) ==> deltas_applied(
                        before,
                        deltas,
                        index as nat,
                        sum_of,
                    ) == (table_view(self.infosets), None::<ParallelError>),
                start == *old(self),
                before == table_view(start.infosets),
            decreases run.deltas.entries.len() - index,
        {
            let key = run.deltas.entries[index].0;
            let ghost middle = table_view(self.infosets);
            proof {
                assert(batch_key_ok(run.deltas.entries@[index as int].0));
                assert(deltas[index as int] == (key, run.deltas.entries@[index as int].1@));
            }
            let result = self.apply_delta(key, &run.deltas.entries[index].1, plus);
            proof {
                assert forall|sum_of: spec_fn(u64, u64) -> u64| #[trigger]
                    describes(*plus, sum_of) implies deltas_applied(
                    before,
                    deltas,
                    (index + 1) as nat,
                    sum_of,
                ) == (
                    table_view(self.infosets),
                    match result {
                        Ok(_) => None::<ParallelError>,
                        Err(error) => Some(error),
                    },
                ) by {
                    assert(deltas_applied(before, deltas, index as nat, sum_of) == (
                        middle,
                        None::<ParallelError>,
                    ));
                }
            }
            if result.is_err() {
                proof {
                    assert forall|sum_of: spec_fn(u64, u64) -> u64| #[trigger]
                        describes(*plus, sum_of) implies deltas_applied(
                        before,
                        deltas,
                        deltas.len(),
                        sum_of,
                    ) == (table_view(self.infosets), Some(result->Err_0)) by {
                        lemma_deltas_stop(
                            before,
                            deltas,
                            (index + 1) as nat,
                            deltas.len(),
                            sum_of,
                        );
                    }
                }
                return result;
            }
            index = index + 1;
        }
        assert(deltas.len() == index);
        Ok(())
    }
}

proof fn lemma_deltas_stop(
    infosets: Map<Key, InfoSetView>,
    deltas: Seq<(Key, InfoSetView)>,
    few: nat,
    many: nat,
    sum_of: spec_fn(u64, u64) -> u64,
)
    requires
        few <= many,
        deltas_applied(infosets, deltas, few, sum_of).1 is Some,
    ensures
        deltas_applied(infosets, deltas, many, sum_of) == deltas_applied(
            infosets,
            deltas,
            few,
            sum_of,
        ),
    decreases many,
{
    if few < many {
        lemma_deltas_stop(infosets, deltas, few, (many - 1) as nat, sum_of);
    }
}

proof fn lemma_results_stop(
    state: Reduced,
    results: Seq<Option<ParallelTaskRun>>,
    few: nat,
    many: nat,
    sum_of: spec_fn(u64, u64) -> u64,
)
    requires
        few <= many,
        results_reduced(state, results, few, sum_of).1 is Some,
    ensures
        results_reduced(state, results, many, sum_of) == results_reduced(
            state,
            results,
            few,
            sum_of,
        ),
    decreases many,
{
    if few < many {
        lemma_results_stop(state, results, few, (many - 1) as nat, sum_of);
    }
}

proof fn lemma_countable_prefix(
    metrics: BatchMetricsView,
    results: Seq<Option<ParallelTaskRun>>,
    few: nat,
    many: nat,
)
    requires
        few <= many,
        results_countable(metrics, results, many),
    ensures
        results_countable(metrics, results, few),
    decreases many,
{
    if few < many {
        lemma_countable_prefix(metrics, results, few, (many - 1) as nat);
    }
}

/// The results of a batch, each at the place of its task.
pub struct BatchResults {
    pub results: Vec<Option<ParallelTaskRun>>,
}

/// Places without results.
pub open spec fn no_results(count: nat) -> Seq<Option<ParallelTaskRun>> {
    Seq::new(count, |i: int| None)
}

impl BatchResults {
    pub fn new(task_count: usize) -> (batch: Self)
        ensures
            batch.results@ == no_results(task_count as nat),
    {
        let mut results: Vec<Option<ParallelTaskRun>> = Vec::new();
        while results.len() < task_count
            invariant
                results@.len() <= task_count,
                results@ == no_results(results@.len()),
            decreases task_count - results.len(),
        {
            results.push(None);
            assert(results@ =~= no_results(results@.len()));
        }
        BatchResults { results }
    }

    /// Puts the result of task `index` in its place.
    pub fn deliver(&mut self, index: usize, run: ParallelTaskRun)
        requires
            index < old(self).results@.len(),
        ensures
            final(self).results@ == old(self).results@.update(index as int, Some(run)),
    {
        self.results.set(index, Some(run));
    }
}

impl MultiwayHoldemBatchSolver {
    pub open spec fn reduced_state(self) -> Reduced {
        Reduced { infosets: table_view(self.infosets), metrics: self.metrics@, attempts: 0 }
    }

    /// Takes the results of a batch in the order of their tasks, and returns the
    /// attempts that their deals took.
    pub fn reduce_results<F: Fn(u64, u64) -> u64>(&mut self, batch: &BatchResults, plus: &F) -> (result:
        Result<u64, ParallelError>)
        requires
            old(self).wf(),
            results_fit(batch.results@, old(self).players()),
            results_countable(old(self).metrics@, batch.results@, batch.results@.len()),
            forall|a: u64, b: u64| call_requires(*plus, (a, b)),
        ensures
            final(self).wf(),
            tallies_apart(*old(self), *final(self)),
            forall|sum_of: spec_fn(u64, u64) -> u64| #[trigger]
                describes(*plus, sum_of) ==> {
                    let (state, error) = results_reduced(
                        old(self).reduced_state(),
                        batch.results@,
                        batch.results@.len(),
                        sum_of,
                    );
                    &&& table_view(final(self).infosets) == state.infosets
                    &&& final(self).metrics@ == state.metrics
                    &&& match error {
                        Some(error) => result == Err::<u64, ParallelError>(error),
                        None => result matches Ok(attempts) && attempts == state.attempts,
                    }
                },
            result is Ok ==> {
                &&& forall|i: int| 0 <= i < batch.results@.len() ==> (#[trigger] batch.results@[i]) is Some
                &&& final(self).metrics@ == metrics_after(
                    old(self).metrics@,
                    batch.results@,
                    batch.results@.len(),
                )
            },
    {
        let ghost start = *self;
        let ghost first = self.reduced_state();
        let ghost results = batch.results@;
        let mut attempts: u64 = 0;
        let mut task: usize = 0;
        while task < batch.results.len()
            invariant
                task <= batch.results@.len(),
                self.wf(),
                tallies_apart(start, *self),
                start == *old(self),
                first == start.reduced_state(),
                results == batch.results@,
                results_fit(results, start.players()),
                results_countable(start.metrics@, results, results.len()),
                forall|a: u64, b: u64| call_requires(*plus, (a, b)),
                self.metrics@ == metrics_after(start.metrics@, results, task as nat),
                forall|i: int| 0 <= i < task ==> (#[trigger] results[i]) is Some,
                forall|sum_of: spec_fn(u64, u64) -> u64| #[trigger]
                    describes(*plus, sum_of) ==> results_reduced(
                        first,
                        results,
                        task as nat,
                        sum_of,
                    ) == (
                        Reduced {
                            infosets: table_view(self.infosets),
                            metrics: self.metrics@,
                            attempts: attempts as int,
                        },
                        None::<ParallelError>,
                    ),
            decreases batch.results.len() - task,
        {
            let ghost made = attempts as int;
            let ghost middle = Reduced {
                infosets: table_view(self.infosets),
                metrics: self.metrics@,
                attempts: made,
            };
            proof {
                assert(result_fits(results[task as int], start.players()));
                lemma_countable_prefix(
                    start.metrics@,
                    results,
                    (task + 1) as nat,
                    results.len(),
                );
            }
            let run = match &batch.results[task] {
                None => {
                    proof {
                        lemma_stopped(
                            *plus,
                            first,
                            results,
                            task as nat,
                            middle,
                            middle,
                            ParallelError::MissingResult { task },
                        );
                    }
                    return Err(ParallelError::MissingResult { task });
                },
                Some(run) => run,
            };
            attempts = match attempts.checked_add(run.private_sampling_attempts) {
                Some(sum) => sum,
                None => {
                    proof {
                        lemma_stopped(
                            *plus,
                            first,
                            results,
                            task as nat,
                            middle,
                            middle,
                            ParallelError::AttemptCountOverflow,
                        );
                    }
                    return Err(ParallelError::AttemptCountOverflow);
                },
            };
            match self.apply_deltas(run, plus) {
                Ok(_) => {},
                Err(error) => {
                    proof {
                        let after = Reduced {
                            infosets: table_view(self.infosets),
                            metrics: self.metrics@,
                            attempts: attempts as int,
                        };
                        lemma_stopped(*plus, first, results, task as nat, middle, after, error);
                    }
                    return Err(error);
                },
            }
            let ghost applied = table_view(self.infosets);
            self.count_result(run);
            proof {
                assert forall|sum_of: spec_fn(u64, u64) -> u64| #[trigger]
                    describes(*plus, sum_of) implies results_reduced(
                    first,
                    results,
                    (task + 1) as nat,
                    sum_of,
                ) == (
                    Reduced {
                        infosets: table_view(self.infosets),
                        metrics: self.metrics@,
                        attempts: attempts as int,
                    },
                    None::<ParallelError>,
                ) by {
                    assert(results_reduced(first, results, task as nat, sum_of) == (
                        middle,
                        None::<ParallelError>,
                    ));
                }
            }
            task = task + 1;
        }
        Ok(attempts)
    }
}

/// Where the result of a task stops the reduction, the later ones do not count.
proof fn lemma_stopped<F: Fn(u64, u64) -> u64>(
    plus: F,
    first: Reduced,
    results: Seq<Option<ParallelTaskRun>>,
    task: nat,
    before: Reduced,
    after: Reduced,
    error: ParallelError,
)
    requires
        task < results.len(),
        forall|sum_of: spec_fn(u64, u64) -> u64| #[trigger]
            describes(plus, sum_of) ==> results_reduced(first, results, task, sum_of) == (
                before,
                None::<ParallelError>,
            ) && result_reduced(before, task, results[task as int], sum_of) == (after, Some(error)),
    ensures
        forall|sum_of: spec_fn(u64, u64) -> u64| #[trigger]
            describes(plus, sum_of) ==> results_reduced(first, results, results.len(), sum_of) == (
                after,
                Some(error),
            ),
{
    assert forall|sum_of: spec_fn(u64, u64) -> u64| #[trigger]
        describes(plus, sum_of) implies results_reduced(first, results, results.len(), sum_of) == (
        after,
        Some(error),
    ) by {
        assert(results_reduced(first, results, (task + 1) as nat, sum_of) == (after, Some(error)));
        lemma_results_stop(first, results, (task + 1) as nat, results.len(), sum_of);
    }
}

/// What a run changes, and the states of its streams.
#[verifier::ext_equal]
pub struct BatchState {
    pub infosets: Map<Key, InfoSetView>,
    pub metrics: BatchMetricsView,
    pub iterations: int,
    pub attempts: int,
    pub private_state: u64,
    pub traversal_state: u64,
}

impl MultiwayHoldemBatchSolver {
    pub open spec fn batch_state(self) -> BatchState {
        BatchState {
            infosets: table_view(self.infosets),
            metrics: self.metrics@,
            iterations: self.iterations as int,
            attempts: self.private_sampler.total_attempts as int,
            private_state: self.private_sampler.rng.state,
            traversal_state: self.traversal_rng.state,
        }
    }
}

/// The state after a batch of `iterations` iterations with these results.
pub open spec fn batch_outcome(
    state: BatchState,
    players: usize,
    iterations: int,
    results: Seq<Option<ParallelTaskRun>>,
    sum_of: spec_fn(u64, u64) -> u64,
) -> Result<BatchState, ParallelError> {
    let first = Reduced { infosets: state.infosets, metrics: state.metrics, attempts: 0 };
    let (reduced, error) = results_reduced(first, results, results.len(), sum_of);
    let count = (iterations * players) as nat;
    if error is Some {
        Err(error->Some_0)
    } else if state.attempts + reduced.attempts > u64::MAX {
        Err(ParallelError::AttemptCountOverflow)
    } else {
        Ok(
            BatchState {
                infosets: reduced.infosets,
                metrics: reduced.metrics,
                iterations: state.iterations + iterations,
                attempts: state.attempts + reduced.attempts,
                private_state: after_steps(state.private_state, count),
                traversal_state: after_steps(state.traversal_state, count),
            },
        )
    }
}

/// The results of all tasks, where `run_of` says what each task finds out.
pub open spec fn all_results(
    tasks: Seq<ParallelBatchTask>,
    run_of: spec_fn(ParallelBatchTask) -> ParallelTaskRun,
) -> Seq<Option<ParallelTaskRun>> {
    Seq::new(tasks.len(), |i: int| Some(run_of(tasks[i])))
}

/// The state after a whole run, where `run_of` says what a task finds out in a
/// state. The number of workers plays no part.
pub open spec fn run_outcome(
    state: BatchState,
    players: usize,
    remaining: u64,
    batch_size: usize,
    run_of: spec_fn(BatchState, ParallelBatchTask) -> ParallelTaskRun,
    sum_of: spec_fn(u64, u64) -> u64,
) -> Result<BatchState, ParallelError>
    decreases remaining,
{
    let iterations = smaller(remaining, batch_size);
    let tasks = tasks_of(
        players,
        state.private_state,
        state.traversal_state,
        (iterations * players) as nat,
    );
    if remaining == 0 || batch_size == 0 {
        Ok(state)
    } else if iterations * players > usize::MAX {
        Err(ParallelError::TaskCountOverflow)
    } else {
        match batch_outcome(
            state,
            players,
            iterations as int,
            all_results(tasks, |task: ParallelBatchTask| run_of(state, task)),
            sum_of,
        ) {
            Err(error) => Err(error),
            Ok(next) => run_outcome(
                next,
                players,
                (remaining - iterations) as u64,
                batch_size,
                run_of,
                sum_of,
            ),
        }
    }
}

/// A run of many batches: how many iterations are left, and where the counters
/// of the solver will stand in the end.
pub struct ParallelRun {
    pub remaining: u64,
    pub batch_size: usize,
    pub end_iterations: Ghost<int>,
    pub end_updates: Ghost<int>,
}

impl ParallelRun {
    pub open spec fn wf(self, solver: MultiwayHoldemBatchSolver) -> bool {
        &&& solver.wf()
        &&& solver.profile_cache is None
        &&& self.batch_size > 0
        &&& solver.iterations + self.remaining == self.end_iterations@
        &&& self.end_iterations@ <= u64::MAX
        &&& solver.metrics.traverser_updates + self.remaining * solver.players()
            == self.end_updates@
    }

    /// Starts a run of `iterations` iterations. When none are left, the solver
    /// has counted them all, and an update of each seat for each of them.
    pub fn start(
        solver: &MultiwayHoldemBatchSolver,
        iterations: u64,
        worker_count: usize,
        batch_size: usize,
    ) -> (result: Result<Self, ParallelError>)
        requires
            solver.wf(),
            solver.iterations + iterations <= u64::MAX,
        ensures
            if worker_count == 0 {
                result == Err::<Self, ParallelError>(ParallelError::ZeroWorkers)
            } else if batch_size == 0 {
                result == Err::<Self, ParallelError>(ParallelError::ZeroBatchSize)
            } else if solver.profile_cache is Some {
                result == Err::<Self, ParallelError>(ParallelError::CompiledDeals)
            } else {
                &&& result matches Ok(run)
                &&& run.wf(*solver)
                &&& run.remaining == iterations
                &&& run.batch_size == batch_size
                &&& run.end_iterations@ == solver.iterations + iterations
                &&& run.end_updates@ == solver.metrics.traverser_updates + iterations
                    * solver.players()
            },
    {
        match check_parallel(solver, worker_count, batch_size) {
            Ok(_) => {},
            Err(error) => {
                return Err(error);
            },
        }
        Ok(
            ParallelRun {
                remaining: iterations,
                batch_size,
                end_iterations: Ghost(solver.iterations + iterations),
                end_updates: Ghost(
                    solver.metrics.traverser_updates + iterations * solver.players(),
                ),
            },
        )
    }

    /// The next batch; none when the run is finished.
    pub fn next_batch(&self, solver: &MultiwayHoldemBatchSolver) -> (result: Result<
        Option<BatchPlan>,
        ParallelError,
    >)
        requires
            self.wf(*solver),
        ensures
            ({
                let count = smaller(self.remaining, self.batch_size) * solver.players();
                if self.remaining == 0 {
                    &&& result == Ok::<Option<BatchPlan>, ParallelError>(None)
                    &&& solver.iterations == self.end_iterations@
                    &&& solver.metrics.traverser_updates == self.end_updates@
                } else if count > usize::MAX {
                    result == Err::<Option<BatchPlan>, ParallelError>(
                        ParallelError::TaskCountOverflow,
                    )
                } else {
                    result matches Ok(Some(plan)) && is_plan(
                        plan,
                        *solver,
                        self.remaining,
                        self.batch_size,
                    )
                }
            }),
    {
        if self.remaining == 0 {
            assert(0 * solver.players() == 0);
            return Ok(None);
        }
        match plan_batch(solver, self.remaining, self.batch_size) {
            Ok(plan) => Ok(Some(plan)),
            Err(error) => Err(error),
        }
    }

    /// Ends a batch: takes its results in order, and counts its iterations.
    pub fn finish_batch<F: Fn(u64, u64) -> u64>(
        &mut self,
        solver: &mut MultiwayHoldemBatchSolver,
        plan: &BatchPlan,
        batch: &BatchResults,
        plus: &F,
    ) -> (result: Result<(), ParallelError>)
        requires
            old(self).wf(*old(solver)),
            old(self).remaining > 0,
            is_plan(*plan, *old(solver), old(self).remaining, old(self).batch_size),
            batch.results@.len() == plan.tasks@.len(),
            results_fit(batch.results@, old(solver).players()),
            results_countable(old(solver).metrics@, batch.results@, batch.results@.len()),
            forall|a: u64, b: u64| call_requires(*plus, (a, b)),
        ensures
            final(solver).wf(),
            final(solver).public_arena == old(solver).public_arena,
            final(solver).config_fingerprint == old(solver).config_fingerprint,
            final(solver).max_private_attempts == old(solver).max_private_attempts,
            final(solver).profile_cache == old(solver).profile_cache,
            final(solver).private_sampler.candidates == old(solver).private_sampler.candidates,
            final(solver).private_sampler.thresholds == old(solver).private_sampler.thresholds,
            final(solver).private_sampler.dead_cards == old(solver).private_sampler.dead_cards,
            final(self).batch_size == old(self).batch_size,
            final(self).end_iterations == old(self).end_iterations,
            final(self).end_updates == old(self).end_updates,
            result is Ok ==> {
                &&& final(self).wf(*final(solver))
                &&& final(self).remaining == old(self).remaining - plan.iterations
            },
            result is Err ==> {
                &&& final(self).remaining == old(self).remaining
                &&& tallies_apart(*old(solver), *final(solver))
            },
            forall|sum_of: spec_fn(u64, u64) -> u64| #[trigger]
                describes(*plus, sum_of) ==> match batch_outcome(
                    old(solver).batch_state(),
                    old(solver).players(),
                    plan.iterations as int,
                    batch.results@,
                    sum_of,
                ) {
                    Ok(state) => result is Ok && final(solver).batch_state() == state,
                    Err(error) => {
                        let (state, _) = results_reduced(
                            old(solver).reduced_state(),
                            batch.results@,
                            batch.results@.len(),
                            sum_of,
                        );
                        &&& result == Err::<(), ParallelError>(error)
                        &&& table_view(final(solver).infosets) == state.infosets
                        &&& final(solver).metrics@ == state.metrics
                    },
                },
    {
        let ghost start = *solver;
        let ghost players = solver.players();
        let attempts = match solver.reduce_results(batch, plus) {
            Ok(attempts) => attempts,
            Err(error) => {
                return Err(error);
            },
        };
        proof {
            lemma_updates_counted(start.metrics@, batch.results@, batch.results@.len());
            assert(batch.results@.len() == plan.iterations * players);
        }
        match solver.finish_batch(plan, attempts) {
            Ok(_) => {},
            Err(error) => {
                return Err(error);
            },
        }
        self.remaining = self.remaining - plan.iterations;
        proof {
            let left = self.remaining as int;
            let done = plan.iterations as int;
            assert((left + done) * players == left * players + done * players) by (nonlinear_arith);
        }
        Ok(())
    }
}

/// Each result counts one update.
proof fn lemma_updates_counted(
    metrics: BatchMetricsView,
    results: Seq<Option<ParallelTaskRun>>,
    count: nat,
)
    requires
        count <= results.len(),
        results_countable(metrics, results, count),
        forall|i: int| 0 <= i < results.len() ==> (#[trigger] results[i]) is Some,
    ensures
        metrics_after(metrics, results, count).traverser_updates == metrics.traverser_updates
            + count,
    decreases count,
{
    if count > 0 {
        lemma_updates_counted(metrics, results, (count - 1) as nat);
        assert(results[count - 1] is Some);
    }
}

impl BatchResults {
    /// Have the counters of the solver room for all results?
    pub fn can_count(&self, solver: &MultiwayHoldemBatchSolver) -> (yes: bool)
        requires
            solver.wf(),
            results_fit(self.results@, solver.players()),
        ensures
            yes == results_countable(solver.metrics@, self.results@, self.results@.len()),
    {
        let mut metrics = solver.metrics.clone();
        let ghost players = solver.players();
        let ghost results = self.results@;
        let mut task: usize = 0;
        while task < self.results.len()
            invariant
                task <= self.results@.len(),
                results == self.results@,
                metrics.sized(players),
                results_fit(results, players),
                metrics@ == metrics_after(solver.metrics@, results, task as nat),
                results_countable(solver.metrics@, results, task as nat),
            decreases self.results.len() - task,
        {
            assert(result_fits(results[task as int], players));
            match &self.results[task] {
                Some(run) => {
                    if !is_countable(&metrics, run, Ghost(players)) {
                        proof {
                            if results_countable(solver.metrics@, results, results.len()) {
                                lemma_countable_prefix(
                                    solver.metrics@,
                                    results,
                                    (task + 1) as nat,
                                    results.len(),
                                );
                            }
                        }
                        return false;
                    }
                    count_run(&mut metrics, run, Ghost(players));
                },
                None => {},
            }
            task = task + 1;
        }
        true
    }
}

/// The results after the runs of the tasks in `order` were delivered.
pub open spec fn delivered(
    results: Seq<Option<ParallelTaskRun>>,
    order: Seq<usize>,
    tasks: Seq<ParallelBatchTask>,
    run_of: spec_fn(ParallelBatchTask) -> ParallelTaskRun,
) -> Seq<Option<ParallelTaskRun>>
    decreases order.len(),
{
    if order.len() == 0 {
        results
    } else {
        let task = order.last() as int;
        delivered(results, order.drop_last(), tasks, run_of).update(
            task,
            Some(run_of(tasks[task])),
        )
    }
}

/// `shares` are the tasks of `worker_count` workers, as they divide them.
pub open spec fn are_shares(
    shares: Seq<Vec<usize>>,
    worker_count: usize,
    task_count: usize,
) -> bool {
    &&& worker_count > 0
    &&& shares.len() == worker_count
    &&& forall|worker: int|
        0 <= worker < worker_count ==> is_share(
            #[trigger] shares[worker]@,
            worker as usize,
            worker_count,
            task_count,
        )
}

/// The tasks of all workers, one worker after the other.
pub open spec fn joined_shares(shares: Seq<Vec<usize>>) -> Seq<usize>
    decreases shares.len(),
{
    if shares.len() == 0 {
        Seq::empty()
    } else {
        joined_shares(shares.drop_last()) + shares.last()@
    }
}

proof fn lemma_joined_has(shares: Seq<Vec<usize>>, worker: int, task: usize)
    requires
        0 <= worker < shares.len(),
        shares[worker]@.contains(task),
    ensures
        joined_shares(shares).contains(task),
    decreases shares.len(),
{
    let front = joined_shares(shares.drop_last());
    if worker == shares.len() - 1 {
        let k = choose|k: int| 0 <= k < shares[worker]@.len() && shares[worker]@[k] == task;
        assert((front + shares.last()@)[front.len() + k] == task);
    } else {
        lemma_joined_has(shares.drop_last(), worker, task);
        let k = choose|k: int| 0 <= k < front.len() && front[k] == task;
        assert((front + shares.last()@)[k] == task);
    }
}

proof fn lemma_joined_below(shares: Seq<Vec<usize>>, worker_count: usize, task_count: usize, k: int)
    requires
        shares.len() <= worker_count,
        forall|worker: int|
            0 <= worker < shares.len() ==> is_share(
                #[trigger] shares[worker]@,
                worker as usize,
                worker_count,
                task_count,
            ),
        0 <= k < joined_shares(shares).len(),
    ensures
        joined_shares(shares)[k] < task_count,
    decreases shares.len(),
{
    let front = joined_shares(shares.drop_last());
    let last = shares.len() - 1;
    if k < front.len() {
        assert forall|worker: int| 0 <= worker < last implies is_share(
            #[trigger] shares.drop_last()[worker]@,
            worker as usize,
            worker_count,
            task_count,
        ) by {
            assert(is_share(shares[worker]@, worker as usize, worker_count, task_count));
        }
        lemma_joined_below(shares.drop_last(), worker_count, task_count, k);
    } else {
        assert(is_share(shares[last]@, last as usize, worker_count, task_count));
        assert(shares[last]@[k - front.len()] < task_count);
    }
}

proof fn lemma_delivered(
    order: Seq<usize>,
    tasks: Seq<ParallelBatchTask>,
    run_of: spec_fn(ParallelBatchTask) -> ParallelTaskRun,
)
    requires
        tasks.len() <= usize::MAX,
        forall|k: int| 0 <= k < order.len() ==> (#[trigger] order[k]) < tasks.len(),
    ensures
        ({
            let results = delivered(no_results(tasks.len()), order, tasks, run_of);
            &&& results.len() == tasks.len()
            &&& forall|i: int|
                0 <= i < tasks.len() ==> #[trigger] results[i] == if order.contains(i as usize) {
                    Some(run_of(tasks[i]))
                } else {
                    None
                }
        }),
    decreases order.len(),
{
    if order.len() > 0 {
        let rest = order.drop_last();
        assert forall|k: int| 0 <= k < rest.len() implies (#[trigger] rest[k]) < tasks.len() by {
            assert(order[k] < tasks.len());
        }
        lemma_delivered(rest, tasks, run_of);
        let results = delivered(no_results(tasks.len()), order, tasks, run_of);
        let last = order.len() - 1;
        assert(order[last] < tasks.len());
        assert forall|i: int| 0 <= i < tasks.len() implies #[trigger] results[i]
            == if order.contains(i as usize) {
            Some(run_of(tasks[i]))
        } else {
            None
        } by {
            if order.contains(i as usize) {
                let k = choose|k: int| 0 <= k < order.len() && order[k] == i;
                if k < last {
                    assert(rest[k] == i);
                }
            } else {
                if rest.contains(i as usize) {
                    let k = choose|k: int| 0 <= k < rest.len() && rest[k] == i;
                    assert(order[k] == i);
                }
                assert(order[last] != i);
            }
        }
    }
}

/// However many workers divide the tasks, when all have delivered, each task has
/// its result in its place.
pub proof fn lemma_workers_deliver_all_results(
    shares: Seq<Vec<usize>>,
    worker_count: usize,
    tasks: Seq<ParallelBatchTask>,
    run_of: spec_fn(ParallelBatchTask) -> ParallelTaskRun,
)
    requires
        tasks.len() <= usize::MAX,
        are_shares(shares, worker_count, tasks.len() as usize),
    ensures
        delivered(no_results(tasks.len()), joined_shares(shares), tasks, run_of) == all_results(
            tasks,
            run_of,
        ),
{
    let count = tasks.len() as usize;
    let order = joined_shares(shares);
    assert forall|k: int| 0 <= k < order.len() implies (#[trigger] order[k]) < tasks.len() by {
        lemma_joined_below(shares, worker_count, count, k);
    }
    lemma_delivered(order, tasks, run_of);
    let results = delivered(no_results(tasks.len()), order, tasks, run_of);
    assert forall|i: int| 0 <= i < tasks.len() implies results[i] == all_results(tasks, run_of)[i] by {
        let worker = i % worker_count as int;
        vstd::arithmetic::div_mod::lemma_mod_bound(i, worker_count as int);
        assert(is_share(shares[worker]@, worker as usize, worker_count, count));
        lemma_workers_share_the_tasks(
            worker as usize,
            worker_count,
            count,
            shares[worker]@,
            i as usize,
        );
        lemma_joined_has(shares, worker, i as usize);
        assert(results[i] == Some(run_of(tasks[i])));
    }
    assert(results =~= all_results(tasks, run_of));
}

/// The number of workers does not change what a batch does: for the same
/// findings of its tasks, two numbers of workers lead to the same state or the
/// same error.
pub proof fn lemma_worker_count_does_not_matter(
    state: BatchState,
    players: usize,
    iterations: int,
    tasks: Seq<ParallelBatchTask>,
    left: Seq<Vec<usize>>,
    left_count: usize,
    right: Seq<Vec<usize>>,
    right_count: usize,
    run_of: spec_fn(ParallelBatchTask) -> ParallelTaskRun,
    sum_of: spec_fn(u64, u64) -> u64,
)
    requires
        tasks.len() <= usize::MAX,
        are_shares(left, left_count, tasks.len() as usize),
        are_shares(right, right_count, tasks.len() as usize),
    ensures
        ({
            let none = no_results(tasks.len());
            batch_outcome(
                state,
                players,
                iterations,
                delivered(none, joined_shares(left), tasks, run_of),
                sum_of,
            ) == batch_outcome(
                state,
                players,
                iterations,
                delivered(none, joined_shares(right), tasks, run_of),
                sum_of,
            )
        }),
{
    lemma_workers_deliver_all_results(left, left_count, tasks, run_of);
    lemma_workers_deliver_all_results(right, right_count, tasks, run_of);
}

/// A run that stops after some of its batches and goes on later with what is
/// left ends as the run in one go.
pub proof fn lemma_batches_make_up_the_run(
    state: BatchState,
    players: usize,
    remaining: u64,
    batch_size: usize,
    shares: Seq<Vec<usize>>,
    worker_count: usize,
    run_of: spec_fn(BatchState, ParallelBatchTask) -> ParallelTaskRun,
    sum_of: spec_fn(u64, u64) -> u64,
)
    requires
        remaining > 0,
        batch_size > 0,
        smaller(remaining, batch_size) * players <= usize::MAX,
        are_shares(
            shares,
            worker_count,
            (smaller(remaining, batch_size) * players) as usize,
        ),
    ensures
        ({
            let iterations = smaller(remaining, batch_size);
            let tasks = tasks_of(
                players,
                state.private_state,
                state.traversal_state,
                (iterations * players) as nat,
            );
            let results = delivered(
                no_results(tasks.len()),
                joined_shares(shares),
                tasks,
                |task: ParallelBatchTask| run_of(state, task),
            );
            run_outcome(state, players, remaining, batch_size, run_of, sum_of)
                == match batch_outcome(state, players, iterations as int, results, sum_of) {
                Err(error) => Err::<BatchState, ParallelError>(error),
                Ok(next) => run_outcome(
                    next,
                    players,
                    (remaining - iterations) as u64,
                    batch_size,
                    run_of,
                    sum_of,
                ),
            }
        }),
{
    let iterations = smaller(remaining, batch_size);
    assert(iterations * players >= 0) by (nonlinear_arith);
    let tasks = tasks_of(
        players,
        state.private_state,
        state.traversal_state,
        (iterations * players) as nat,
    );
    lemma_workers_deliver_all_results(
        shares,
        worker_count,
        tasks,
        |task: ParallelBatchTask| run_of(state, task),
    );
}

/// The state after a whole run in which `shares` says how the workers divide the
/// tasks of a batch, and results are delivered worker by worker.
pub open spec fn shared_run_outcome(
    state: BatchState,
    players: usize,
    remaining: u64,
    batch_size: usize,
    shares: spec_fn(usize) -> Seq<Vec<usize>>,
    run_of: spec_fn(BatchState, ParallelBatchTask) -> ParallelTaskRun,
    sum_of: spec_fn(u64, u64) -> u64,
) -> Result<BatchState, ParallelError>
    decreases remaining,
{
    let iterations = smaller(remaining, batch_size);
    let count = (iterations * players) as nat;
    let tasks = tasks_of(players, state.private_state, state.traversal_state, count);
    if remaining == 0 || batch_size == 0 {
        Ok(state)
    } else if count > usize::MAX {
        Err(ParallelError::TaskCountOverflow)
    } else {
        match batch_outcome(
            state,
            players,
            iterations as int,
            delivered(
                no_results(tasks.len()),
                joined_shares(shares(count as usize)),
                tasks,
                |task: ParallelBatchTask| run_of(state, task),
            ),
            sum_of,
        ) {
            Err(error) => Err(error),
            Ok(next) => shared_run_outcome(
                next,
                players,
                (remaining - iterations) as u64,
                batch_size,
                shares,
                run_of,
                sum_of,
            ),
        }
    }
}

/// `shares` divides every batch among `worker_count` workers, or among one for
/// each task where there are fewer tasks.
pub open spec fn divides_all(shares: spec_fn(usize) -> Seq<Vec<usize>>, worker_count: usize) -> bool {
    forall|count: usize|
        count > 0 ==> are_shares(
            #[trigger] shares(count),
            smaller(worker_count as u64, count) as usize,
            count,
        )
}

/// The number of workers has no influence on a run: it ends in the state, or with
/// the error, that the tasks alone determine.
pub proof fn lemma_a_run_does_not_depend_on_its_workers(
    state: BatchState,
    players: usize,
    remaining: u64,
    batch_size: usize,
    shares: spec_fn(usize) -> Seq<Vec<usize>>,
    worker_count: usize,
    run_of: spec_fn(BatchState, ParallelBatchTask) -> ParallelTaskRun,
    sum_of: spec_fn(u64, u64) -> u64,
)
    requires
        players > 0,
        batch_size > 0,
        divides_all(shares, worker_count),
    ensures
        shared_run_outcome(state, players, remaining, batch_size, shares, run_of, sum_of)
            == run_outcome(state, players, remaining, batch_size, run_of, sum_of),
    decreases remaining,
{
    if remaining > 0 {
        let iterations = smaller(remaining, batch_size);
        assert(iterations > 0);
        assert(iterations * players > 0) by (nonlinear_arith)
            requires
                iterations > 0,
                players > 0,
        ;
        let count = (iterations * players) as nat;
        let tasks = tasks_of(players, state.private_state, state.traversal_state, count);
        if count <= usize::MAX {
            assert(are_shares(
                shares(count as usize),
                smaller(worker_count as u64, count as usize) as usize,
                count as usize,
            ));
            let found = |task: ParallelBatchTask| run_of(state, task);
            lemma_workers_deliver_all_results(
                shares(count as usize),
                smaller(worker_count as u64, count as usize) as usize,
                tasks,
                found,
            );
            if let Ok(next) = batch_outcome(
                state,
                players,
                iterations as int,
                all_results(tasks, found),
                sum_of,
            ) {
                lemma_a_run_does_not_depend_on_its_workers(
                    next,
                    players,
                    (remaining - iterations) as u64,
                    batch_size,
                    shares,
                    worker_count,
                    run_of,
                    sum_of,
                );
            }
        }
    }
}

/// A run that succeeds has made all its iterations.
pub proof fn lemma_a_run_makes_all_its_iterations(
    state: BatchState,
    players: usize,
    remaining: u64,
    batch_size: usize,
    run_of: spec_fn(BatchState, ParallelBatchTask) -> ParallelTaskRun,
    sum_of: spec_fn(u64, u64) -> u64,
)
    requires
        batch_size > 0,
    ensures
        run_outcome(state, players, remaining, batch_size, run_of, sum_of) matches Ok(end)
            ==> end.iterations == state.iterations + remaining,
    decreases remaining,
{
    if remaining > 0 {
        let iterations = smaller(remaining, batch_size);
        let tasks = tasks_of(
            players,
            state.private_state,
            state.traversal_state,
            (iterations * players) as nat,
        );
        if let Ok(next) = batch_outcome(
            state,
            players,
            iterations as int,
            all_results(tasks, |task: ParallelBatchTask| run_of(state, task)),
            sum_of,
        ) {
            lemma_a_run_makes_all_its_iterations(
                next,
                players,
                (remaining - iterations) as u64,
                batch_size,
                run_of,
                sum_of,
            );
        }
    }
}

} // verus!
