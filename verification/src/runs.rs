//! Runs of iterations, and what resuming one gives.
//!
//! An iteration changes the state of a solver: its sums, its counters, its random
//! numbers. What it computes is a function of that state alone, so a run is that
//! function applied again and again, and a run that is cut by a checkpoint goes on
//! as if it had not been cut.
use vstd::prelude::*;

use crate::checkpoint::{
    checkpoint_views, entry_views, lemma_restore_undoes_checkpoint, table_view, InfoSetData,
    InfoSetView, SolverCheckpoint,
};
use crate::multiway::{MultiwayMccfrSolver, MultiwaySamplingMetrics, MultiwaySolverCheckpoint};
use crate::solver::{CfrPlusSolver, MccfrSolver};
use crate::table::{lemma_entry, Key, Table};

verus! {

/// The state after `count` iterations; none where one of them fails.
pub open spec fn run_of<S>(
    state: S,
    count: nat,
    iteration: spec_fn(S) -> Option<S>,
) -> Option<S>
    decreases count,
{
    if count == 0 {
        Some(state)
    } else {
        match iteration(state) {
            Some(next) => run_of(next, (count - 1) as nat, iteration),
            None => None,
        }
    }
}

/// A run of `first + second` iterations is a run of `first` and then one of
/// `second`.
pub proof fn lemma_a_run_can_be_cut<S>(
    state: S,
    first: nat,
    second: nat,
    iteration: spec_fn(S) -> Option<S>,
)
    ensures
        run_of(state, first + second, iteration) == match run_of(state, first, iteration) {
            Some(between) => run_of(between, second, iteration),
            None => None,
        },
    decreases first,
{
    if first > 0 {
        if let Some(next) = iteration(state) {
            lemma_a_run_can_be_cut(next, (first - 1) as nat, second, iteration);
        }
    }
}

/// Where every iteration moves a counter by the same step, a run moves it by that
/// step for each of its iterations.
pub proof fn lemma_a_run_counts<S>(
    state: S,
    count: nat,
    iteration: spec_fn(S) -> Option<S>,
    counter: spec_fn(S) -> int,
    step: int,
)
    requires
        forall|s: S|
            (#[trigger] iteration(s)) matches Some(next) ==> counter(next) == counter(s) + step,
    ensures
        run_of(state, count, iteration) matches Some(end) ==> counter(end) == counter(state)
            + count * step,
    decreases count,
{
    if count > 0 {
        if let Some(next) = iteration(state) {
            lemma_a_run_counts(next, (count - 1) as nat, iteration, counter, step);
            assert(count * step == step + (count - 1) * step) by (nonlinear_arith);
        }
    } else {
        assert(0 * step == 0) by (nonlinear_arith);
    }
}

/// What an iteration of the full-traversal solver reads and changes.
pub struct CfrPlusState {
    pub infosets: Map<Key, InfoSetView>,
    pub iterations: u64,
}

/// What an iteration of the sampling solver reads and changes.
pub struct MccfrState {
    pub infosets: Map<Key, InfoSetView>,
    pub iterations: u64,
    pub rng_state: u64,
}

/// What an iteration of the multiway solver reads and changes.
pub struct MultiwayState {
    pub infosets: Map<Key, InfoSetView>,
    pub iterations: u64,
    pub rng_state: u64,
    pub metrics: MultiwaySamplingMetrics,
}

impl CfrPlusSolver {
    pub open spec fn state(self) -> CfrPlusState {
        CfrPlusState { infosets: table_view(self.infosets), iterations: self.iterations }
    }
}

impl MccfrSolver {
    pub open spec fn state(self) -> MccfrState {
        MccfrState {
            infosets: table_view(self.infosets),
            iterations: self.iterations,
            rng_state: self.rng.state,
        }
    }
}

impl MultiwayMccfrSolver {
    pub open spec fn state(self) -> MultiwayState {
        MultiwayState {
            infosets: table_view(self.infosets),
            iterations: self.iterations,
            rng_state: self.rng.state,
            metrics: self.metrics,
        }
    }
}

/// Two checkpoints hold the same.
pub open spec fn same_checkpoint(left: SolverCheckpoint, right: SolverCheckpoint) -> bool {
    &&& left.format_version == right.format_version
    &&& left.algorithm == right.algorithm
    &&& left.game_fingerprint == right.game_fingerprint
    &&& left.config_fingerprint == right.config_fingerprint
    &&& left.iterations == right.iterations
    &&& left.rng_state == right.rng_state
    &&& checkpoint_views(left.infosets@) == checkpoint_views(right.infosets@)
}

/// Two checkpoints of multiway solvers hold the same.
pub open spec fn same_multiway_checkpoint(
    left: MultiwaySolverCheckpoint,
    right: MultiwaySolverCheckpoint,
) -> bool {
    &&& left.format_version == right.format_version
    &&& left.algorithm == right.algorithm
    &&& left.player_count == right.player_count
    &&& left.game_fingerprint == right.game_fingerprint
    &&& left.config_fingerprint == right.config_fingerprint
    &&& left.iterations == right.iterations
    &&& left.rng_state == right.rng_state
    &&& left.metrics == right.metrics
    &&& checkpoint_views(left.infosets@) == checkpoint_views(right.infosets@)
}

/// The first `count` entries of tables with the same data are the same.
proof fn lemma_same_data_same_prefix(
    left: Table<InfoSetData>,
    right: Table<InfoSetData>,
    count: int,
)
    requires
        left.wf(),
        right.wf(),
        table_view(left) == table_view(right),
        0 <= count <= left.entries@.len(),
    ensures
        count <= right.entries@.len(),
        forall|i: int|
            0 <= i < count ==> (#[trigger] left.entries@[i]).0 == right.entries@[i].0
                && left.entries@[i].1@ == right.entries@[i].1@,
    decreases count,
{
    if count > 0 {
        lemma_same_data_same_prefix(left, right, count - 1);
        let at = count - 1;
        let key = left.entries@[at].0;
        lemma_entry(left, at);
        assert(table_view(left).dom().contains(key));
        assert(table_view(right).dom().contains(key));
        assert(right.has(key));
        let place = choose|i: int|
            0 <= i < right.entries@.len() && (#[trigger] right.entries@[i]).0 == key;
        if place < at {
            assert(left.entries@[place].0 == right.entries@[place].0);
            assert(left.entries@[place].0.below(left.entries@[at].0));
            assert(false);
        }
        let other = right.entries@[at].0;
        lemma_entry(right, at);
        assert(table_view(right).dom().contains(other));
        assert(table_view(left).dom().contains(other));
        assert(left.has(other));
        let from = choose|i: int|
            0 <= i < left.entries@.len() && (#[trigger] left.entries@[i]).0 == other;
        if from < at {
            assert(left.entries@[from].0 == right.entries@[from].0);
            assert(right.entries@[from].0.below(right.entries@[at].0));
            assert(false);
        }
        if place > at {
            assert(right.entries@[at].0.below(right.entries@[place].0));
            if from > at {
                assert(left.entries@[at].0.below(left.entries@[from].0));
            }
            assert(false);
        }
        assert(table_view(left)[key] == left@[key]@);
        assert(table_view(right)[key] == right@[key]@);
    }
}

/// Tables with the same data list it in the same order.
pub proof fn lemma_same_data_same_entries(left: Table<InfoSetData>, right: Table<InfoSetData>)
    requires
        left.wf(),
        right.wf(),
        table_view(left) == table_view(right),
    ensures
        entry_views(left.entries@) == entry_views(right.entries@),
{
    lemma_same_data_same_prefix(left, right, left.entries@.len() as int);
    lemma_same_data_same_prefix(right, left, right.entries@.len() as int);
    assert(entry_views(left.entries@) =~= entry_views(right.entries@));
}

/// A solver that was resumed from a checkpoint has the same checkpoint, and any
/// number of further iterations leads it where they lead the solver that wrote it:
/// to the same checkpoint again, or to a failure of both.
pub proof fn lemma_cfr_plus_runs_go_on_alike(
    solver: CfrPlusSolver,
    checkpoint: SolverCheckpoint,
    resumed: CfrPlusSolver,
    count: nat,
    iteration: spec_fn(CfrPlusState) -> Option<CfrPlusState>,
    later: CfrPlusSolver,
    later_checkpoint: SolverCheckpoint,
    resumed_later: CfrPlusSolver,
    resumed_checkpoint: SolverCheckpoint,
)
    requires
        solver.sound(),
        solver.written(checkpoint),
        resumed.resumes(solver.game, checkpoint, solver.config_fingerprint),
    ensures
        resumed.state() == solver.state(),
        resumed.written(checkpoint),
        run_of(resumed.state(), count, iteration) == run_of(solver.state(), count, iteration),
        ({
            &&& later.sound()
            &&& later.game == solver.game
            &&& later.config_fingerprint == solver.config_fingerprint
            &&& run_of(solver.state(), count, iteration) == Some(later.state())
            &&& later.written(later_checkpoint)
            &&& resumed_later.sound()
            &&& resumed_later.game == resumed.game
            &&& resumed_later.config_fingerprint == resumed.config_fingerprint
            &&& run_of(resumed.state(), count, iteration) == Some(resumed_later.state())
            &&& resumed_later.written(resumed_checkpoint)
        }) ==> same_checkpoint(later_checkpoint, resumed_checkpoint),
{
    lemma_restore_undoes_checkpoint(solver.infosets);
    lemma_same_data_same_entries(resumed.infosets, solver.infosets);
    if later.sound() && resumed_later.sound() && later.state() == resumed_later.state() {
        lemma_same_data_same_entries(later.infosets, resumed_later.infosets);
    }
}

/// A run of `first` iterations, a checkpoint, and a resumed run of `second`
/// iterations end where one run of both ends: with the same information sets,
/// the same random state and the same number of iterations.
pub proof fn lemma_mccfr_runs_go_on_alike(
    start: MccfrState,
    first: nat,
    second: nat,
    iteration: spec_fn(MccfrState) -> Option<MccfrState>,
    stopped: MccfrSolver,
    checkpoint: SolverCheckpoint,
    resumed: MccfrSolver,
    finished: MccfrSolver,
    finished_checkpoint: SolverCheckpoint,
    resumed_finished: MccfrSolver,
    resumed_checkpoint: SolverCheckpoint,
)
    requires
        stopped.sound(),
        stopped.written(checkpoint),
        run_of(start, first, iteration) == Some(stopped.state()),
        resumed.resumes(stopped.game, checkpoint, stopped.config_fingerprint),
    ensures
        resumed.state() == stopped.state(),
        run_of(resumed.state(), second, iteration) == run_of(start, first + second, iteration),
        ({
            &&& finished.sound()
            &&& finished.game == stopped.game
            &&& finished.config_fingerprint == stopped.config_fingerprint
            &&& run_of(start, first + second, iteration) == Some(finished.state())
            &&& finished.written(finished_checkpoint)
            &&& resumed_finished.sound()
            &&& resumed_finished.game == resumed.game
            &&& resumed_finished.config_fingerprint == resumed.config_fingerprint
            &&& run_of(resumed.state(), second, iteration) == Some(resumed_finished.state())
            &&& resumed_finished.written(resumed_checkpoint)
        }) ==> same_checkpoint(finished_checkpoint, resumed_checkpoint),
{
    lemma_restore_undoes_checkpoint(stopped.infosets);
    lemma_a_run_can_be_cut(start, first, second, iteration);
    if finished.sound() && resumed_finished.sound() && finished.state()
        == resumed_finished.state() {
        lemma_same_data_same_entries(finished.infosets, resumed_finished.infosets);
    }
}

/// The same of the multiway solver, its counters with it.
pub proof fn lemma_multiway_runs_go_on_alike(
    start: MultiwayState,
    first: nat,
    second: nat,
    iteration: spec_fn(MultiwayState) -> Option<MultiwayState>,
    stopped: MultiwayMccfrSolver,
    checkpoint: MultiwaySolverCheckpoint,
    resumed: MultiwayMccfrSolver,
    finished: MultiwayMccfrSolver,
    finished_checkpoint: MultiwaySolverCheckpoint,
    resumed_finished: MultiwayMccfrSolver,
    resumed_checkpoint: MultiwaySolverCheckpoint,
)
    requires
        stopped.sound(),
        stopped.written(checkpoint),
        run_of(start, first, iteration) == Some(stopped.state()),
        resumed.resumes(stopped.game, checkpoint, stopped.config_fingerprint),
    ensures
        resumed.state() == stopped.state(),
        run_of(resumed.state(), second, iteration) == run_of(start, first + second, iteration),
        ({
            &&& finished.sound()
            &&& finished.game == stopped.game
            &&& finished.config_fingerprint == stopped.config_fingerprint
            &&& run_of(start, first + second, iteration) == Some(finished.state())
            &&& finished.written(finished_checkpoint)
            &&& resumed_finished.sound()
            &&& resumed_finished.game == resumed.game
            &&& resumed_finished.config_fingerprint == resumed.config_fingerprint
            &&& run_of(resumed.state(), second, iteration) == Some(resumed_finished.state())
            &&& resumed_finished.written(resumed_checkpoint)
        }) ==> same_multiway_checkpoint(finished_checkpoint, resumed_checkpoint),
{
    lemma_restore_undoes_checkpoint(stopped.infosets);
    lemma_a_run_can_be_cut(start, first, second, iteration);
    if finished.sound() && resumed_finished.sound() && finished.state()
        == resumed_finished.state() {
        lemma_same_data_same_entries(finished.infosets, resumed_finished.infosets);
    }
}

} // verus!
