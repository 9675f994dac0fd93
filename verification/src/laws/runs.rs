//! What each step of a job, a drill, a history and a cache does.
use vstd::prelude::*;

use crate::cards::Combo;
use crate::domain::GameState;
use crate::drill::{
    answer_noted, hand_recorded, prompted, DrillError, DrillFrequency, DrillLoss, DrillPrompt,
    DrillRun, DrillStep,
};
use crate::holdem::MultiwayCompiledHoldemGame;
use crate::job::{
    answer_taken, batch_noted, checkpoint_noted, failure_noted, manifest_noted, JobError, JobPhase,
    JobRun, MultiwayBatchJobManifest,
};
use crate::job_files::checkpoint_name_text;
use crate::profile_cache::{looked_up, stored, MultiwayCompiledProfileCache};
use crate::spot::{MultiwayHoldemSpotConfig, SpotError};
use crate::spot_history::{advanced, HistoryCommand, HistoryRun};

verus! {

/// What no step of a job changes: its name, settings and spot.
pub open spec fn same_identity(
    before: MultiwayBatchJobManifest,
    after: MultiwayBatchJobManifest,
) -> bool {
    &&& after.format_version == before.format_version
    &&& after.job_id@ == before.job_id@
    &&& after.config == before.config
    &&& after.player_count == before.player_count
    &&& after.tree_fingerprint == before.tree_fingerprint
    &&& after.range_fingerprint == before.range_fingerprint
    &&& after.dead_cards == before.dead_cards
    &&& after.config_fingerprint == before.config_fingerprint
}

/// Neither the progress nor the checkpoints of a job differ.
pub open spec fn same_progress(before: JobRun, after: JobRun) -> bool {
    &&& after.iterations == before.iterations
    &&& after.manifest.completed_iterations == before.manifest.completed_iterations
    &&& after.manifest.checkpoint_sequence == before.manifest.checkpoint_sequence
    &&& after.manifest.latest_checkpoint == before.manifest.latest_checkpoint
}

/// A no always cancels the job, a yes never does. A yes completes a job exactly at its
/// target; before it, the job goes on running, and a batch it starts ends at the next
/// checkpoint or at the target.
pub proof fn lemma_answers(before: JobRun, after: JobRun, go_on: bool)
    requires
        answer_taken(before, after, go_on),
        before.wf(),
        before.phase is FirstQuestion || before.phase is BatchQuestion || before.phase
            is CheckpointQuestion,
    ensures
        same_identity(before.manifest, after.manifest),
        same_progress(before, after),
        after.manifest.status is Cancelled <==> !go_on,
        after.manifest.status is Completed <==> go_on && before.iterations
            == before.manifest.config.target_iterations,
        after.phase is Ending <==> after.manifest.status is Cancelled || after.manifest.status
            is Completed,
        after.manifest.status is Completed ==> after.manifest.error is None,
        !(after.manifest.status is Completed) ==> after.manifest.error == before.manifest.error,
        after.phase matches JobPhase::Batch(count) ==> {
            let interval = before.manifest.config.checkpoint_interval;
            let end = before.iterations + count;
            &&& before.phase is BatchQuestion
            &&& 0 < count <= interval
            &&& end <= before.manifest.config.target_iterations
            &&& count == interval || end == before.manifest.config.target_iterations
        },
        go_on && before.iterations < before.manifest.config.target_iterations ==> {
            &&& after.manifest.status is Running
            &&& before.phase is BatchQuestion ==> after.phase is Batch
            &&& !(before.phase is BatchQuestion) ==> after.phase is BatchQuestion
        },
{
}

/// A saved checkpoint is named in the manifest by its number, and what the solver has
/// done counts as completed.
pub proof fn lemma_saved_checkpoints(before: JobRun, after: JobRun)
    requires
        checkpoint_noted(before, after),
        before.phase is FirstCheckpoint || before.phase is Checkpoint,
    ensures
        same_identity(before.manifest, after.manifest),
        after.iterations == before.iterations,
        after.manifest.completed_iterations == before.iterations,
        before.phase is FirstCheckpoint ==> after.manifest.checkpoint_sequence == 1,
        before.phase matches JobPhase::Checkpoint(sequence) ==> after.manifest.checkpoint_sequence
            == sequence,
        after.manifest.latest_checkpoint is Some,
        after.manifest.latest_checkpoint->Some_0@ == checkpoint_name_text(
            after.manifest.checkpoint_sequence,
        ),
        after.manifest.status == before.manifest.status,
        after.manifest.error == before.manifest.error,
        before.phase is FirstCheckpoint <==> after.phase is Created,
        before.phase is Checkpoint <==> after.phase is Progress,
{
}

/// Saving the manifest changes nothing but the phase: a new job starts, a started one
/// asks, progress is asked about, and an ended job is done.
pub proof fn lemma_saved_manifests(before: JobRun, after: JobRun)
    requires
        manifest_noted(before, after),
        before.phase is Created || before.phase is Started || before.phase is Progress
            || before.phase is Ending,
    ensures
        after.manifest == before.manifest,
        after.iterations == before.iterations,
        before.phase is Created <==> after.phase is Started,
        before.phase is Started <==> after.phase is FirstQuestion,
        before.phase is Progress <==> after.phase is CheckpointQuestion,
        before.phase is Ending <==> after.phase is Done,
{
}

/// A finished batch adds its iterations and asks for the next checkpoint; the manifest
/// waits for that. Where no number is left for one, nothing changes.
pub proof fn lemma_finished_batches(before: JobRun, after: JobRun, result: Result<(), JobError>)
    requires
        batch_noted(before, after, result),
        before.wf(),
        before.phase is Batch,
    ensures
        after.manifest == before.manifest,
        result is Err <==> before.manifest.checkpoint_sequence == u64::MAX,
        result is Err ==> after == before,
        result is Ok ==> after.iterations == before.iterations + before.phase->Batch_0,
        result is Ok ==> after.phase is Checkpoint && after.phase->Checkpoint_0
            == before.manifest.checkpoint_sequence + 1,
{
}

/// A failed batch ends the job as failed, with its error and the iterations that were
/// done; the last checkpoint stays the last.
pub proof fn lemma_failed_batches(before: JobRun, after: JobRun, error: String, done: u64)
    requires
        failure_noted(before, after, error, done),
    ensures
        same_identity(before.manifest, after.manifest),
        after.phase is Ending,
        after.manifest.status is Failed,
        after.manifest.error == Some(error),
        after.iterations == before.iterations + done,
        after.manifest.completed_iterations == after.iterations,
        after.manifest.checkpoint_sequence == before.manifest.checkpoint_sequence,
        after.manifest.latest_checkpoint == before.manifest.latest_checkpoint,
{
}

/// Looking hands up finds them exactly where they are stored, counts one hit or one
/// miss, and changes nothing else.
pub proof fn lemma_looked_up_hands(
    before: MultiwayCompiledProfileCache,
    after: MultiwayCompiledProfileCache,
    hands: Seq<Combo>,
    found: Option<usize>,
)
    requires
        looked_up(before, after, hands, found),
        before.metrics.hits < u64::MAX,
        before.metrics.misses < u64::MAX,
    ensures
        after.profiles == before.profiles,
        after.capacity == before.capacity,
        found matches Some(index) ==> index < before.profiles@.len() && before.profiles@[index
            as int].hands@ == hands,
        found is None <==> forall|i: int|
            0 <= i < before.profiles@.len() ==> (#[trigger] before.profiles@[i]).hands@ != hands,
        after.metrics.hits == before.metrics.hits + if found is Some {
            1int
        } else {
            0
        },
        after.metrics.misses == before.metrics.misses + if found is None {
            1int
        } else {
            0
        },
        after.metrics.evictions == before.metrics.evictions,
{
    let known = crate::profile_cache::cached_hands(before.profiles@);
    if found is None {
        assert forall|i: int| 0 <= i < before.profiles@.len() implies (
        #[trigger] before.profiles@[i]).hands@ != hands by {
            assert(known[i] == before.profiles@[i].hands@);
            assert(known.contains(known[i]));
        }
    }
}

/// A stored game comes last. All others stay in their order, but for the oldest of a
/// full cache, which goes and is counted.
pub proof fn lemma_stored_games(
    before: MultiwayCompiledProfileCache,
    after: MultiwayCompiledProfileCache,
    hands: Vec<Combo>,
    compiled: MultiwayCompiledHoldemGame,
    i: int,
)
    requires
        stored(before, after, hands, compiled),
        before.wf(),
        before.metrics.evictions < u64::MAX,
        0 <= i < before.profiles@.len(),
    ensures
        after.capacity == before.capacity,
        after.profiles@.last().hands == hands,
        after.profiles@.last().compiled == compiled,
        before.profiles@.len() < before.capacity ==> {
            &&& after.profiles@.len() == before.profiles@.len() + 1
            &&& after.profiles@[i] == before.profiles@[i]
            &&& after.metrics.evictions == before.metrics.evictions
        },
        before.profiles@.len() == before.capacity ==> {
            &&& after.profiles@.len() == before.profiles@.len()
            &&& i > 0 ==> after.profiles@[i - 1] == before.profiles@[i]
            &&& after.metrics.evictions == before.metrics.evictions + 1
        },
        after.metrics.hits == before.metrics.hits,
        after.metrics.misses == before.metrics.misses,
{
}

/// A prompt shows the next hand, numbered by those played, with the spot's pot and
/// blind; there is none once all hands are played or the hero has quit.
pub proof fn lemma_prompts(
    before: DrillRun,
    after: DrillRun,
    result: Result<Option<DrillPrompt>, DrillError>,
)
    requires
        prompted(before, after, result),
        before.session.hands@.len() <= usize::MAX,
    ensures
        after.session == before.session,
        after.over == before.over,
        result == Ok::<Option<DrillPrompt>, DrillError>(None) <==> before.over
            || before.session.hands@.len() >= before.session.hands_total,
        result is Err ==> after == before && !before.total_ok,
        result matches Ok(Some(prompt)) ==> {
            &&& prompt.hand_index == before.session.hands@.len()
            &&& prompt.hands_total == before.session.hands_total
            &&& prompt.hero_player == before.session.hero_player
            &&& prompt.pot == before.session.pot
            &&& prompt.big_blind == before.session.big_blind
            &&& after.asked == Some(prompt.hero_hand)
            &&& prompt.hero_hand == crate::drill::dealt_hand(
                before.hands@,
                before.thresholds@,
                before.seed,
                before.session.hands@.len(),
            )
            &&& after.answer is None
        },
{
}

/// No answer quits; an answer is taken exactly where it names an action, and is then
/// the one that is evaluated.
pub proof fn lemma_drill_answers(
    before: DrillRun,
    after: DrillRun,
    answer: Option<usize>,
    result: Result<DrillStep, DrillError>,
)
    requires
        answer_noted(before, after, answer, result),
        before.labels@.len() <= usize::MAX,
    ensures
        after.session == before.session,
        answer is None <==> result == Ok::<DrillStep, DrillError>(DrillStep::Quit),
        answer is None ==> after.over,
        answer matches Some(index) ==> {
            &&& result is Ok <==> index < before.labels@.len()
            &&& result is Ok ==> result == Ok::<DrillStep, DrillError>(
                DrillStep::Evaluate { action: index },
            ) && after.answer == Some(index) && after.asked == before.asked
            &&& result is Err ==> after == before && result == Err::<DrillStep, DrillError>(
                DrillError::UnknownAction { index, actions: before.labels@.len() as usize },
            )
        },
{
}

/// A record comes last and tells of the hand that was asked, the action that was
/// answered, its label, and what it cost; earlier records stay.
pub proof fn lemma_drill_records(
    before: DrillRun,
    after: DrillRun,
    loss: DrillLoss,
    frequencies: Vec<DrillFrequency>,
)
    requires
        hand_recorded(before, after, loss, frequencies),
        before.asked is Some,
        before.answer is Some,
    ensures
        after.session.hands@.len() == before.session.hands@.len() + 1,
        forall|i: int|
            0 <= i < before.session.hands@.len() ==> #[trigger] after.session.hands@[i]
                == before.session.hands@[i],
        after.asked is None,
        ({
            let record = after.session.hands@[before.session.hands@.len() as int];
            &&& record.hand_index == before.session.hands@.len()
            &&& record.hero_hand == before.asked->Some_0
            &&& record.action_index == before.answer->Some_0
            &&& record.action@ == before.labels@[before.answer->Some_0 as int]@
            &&& record.loss == loss
            &&& record.frequencies == frequencies
        }),
{
    assert forall|i: int|
        0 <= i < before.session.hands@.len() implies #[trigger] after.session.hands@[i]
        == before.session.hands@[i] by {
        assert(after.session.hands@.drop_last()[i] == before.session.hands@[i]);
    }
}

/// A history deals cards exactly after an action that left nobody to act while the
/// hand runs; otherwise it takes the next action; it is done only where all of both
/// are played and it is the hero's turn. A refused step changes nothing.
pub proof fn lemma_history_steps(
    before: HistoryRun,
    after: HistoryRun,
    config: MultiwayHoldemSpotConfig,
    state: GameState,
    result: Result<HistoryCommand, SpotError>,
)
    requires
        advanced(before, after, config, state, result),
        before.wf(config),
        config.board_cards@.len() <= usize::MAX,
    ensures
        result is Err ==> after == before,
        result matches Ok(HistoryCommand::Deal { cards }) ==> {
            let width = after.board - before.board;
            &&& before.acted && state.actor is None && state.terminal is None
            &&& state.street is Preflop ==> width == 3
            &&& state.street is Flop || state.street is Turn ==> width == 1
            &&& !(state.street is River)
            &&& cards@.len() == width
            &&& forall|k: int|
                0 <= k < width ==> #[trigger] cards@[k] == config.board_cards@[before.board + k]
            &&& after.actions == before.actions
            &&& !after.acted
        },
        result matches Ok(HistoryCommand::Apply { action }) ==> {
            let observed = config.action_history@[before.actions as int];
            &&& before.actions < config.action_history@.len()
            &&& state.terminal is None
            &&& state.actor == Some(observed.player)
            &&& action == observed.action
            &&& after.actions == before.actions + 1
            &&& after.board == before.board
            &&& after.acted
        },
        result matches Ok(HistoryCommand::Done) ==> {
            &&& before.actions == config.action_history@.len()
            &&& before.board == config.board_cards@.len()
            &&& state.terminal is None
            &&& state.actor == Some(config.hero_player)
            &&& after == before
        },
{
}

} // verus!
