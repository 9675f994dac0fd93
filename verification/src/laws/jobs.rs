//! What a job may run, and under which names its files lie.
use vstd::prelude::*;

use crate::batch_store::{batch_checkpoint_error, MultiwayHoldemBatchCheckpoint};
use crate::job::{
    batch_length, command_of, existing_error,
    manifest_from_checkpoint, start_error, JobCommand, JobError, JobPhase, MultiwayBatchJobConfig,
    MultiwayBatchJobManifest, MULTIWAY_BATCH_JOB_FORMAT_VERSION,
};
use crate::job_files::{
    checkpoint_name_text, files_to_rotate, joined_path, names_checkpoint, temporary_path_text,
    text_below,
};
use crate::laws::texts::{lemma_decimal_text_reads_back, lemma_padding, value_of};
use crate::text::{decimal_text, is_blank, zero_padded};

verus! {

/// Every count of a configuration is above zero.
pub open spec fn all_positive(config: MultiwayBatchJobConfig) -> bool {
    &&& config.target_iterations > 0
    &&& config.worker_count > 0
    &&& config.reduction_batch_size > 0
    &&& config.checkpoint_interval > 0
    &&& config.max_private_attempts > 0
    &&& config.keep_checkpoints > 0
}

/// A configuration is in order exactly where every count is above zero; the error
/// names one that is not.
pub proof fn lemma_configurations_in_order(
    config: MultiwayBatchJobConfig,
    result: Result<(), JobError>,
)
    requires
        call_ensures(MultiwayBatchJobConfig::validate, (&config,), result),
    ensures
        result is Ok <==> all_positive(config),
        result matches Err(error) ==> match error {
            JobError::ZeroTargetIterations => config.target_iterations == 0,
            JobError::ZeroWorkerCount => config.worker_count == 0,
            JobError::ZeroReductionBatchSize => config.reduction_batch_size == 0,
            JobError::ZeroCheckpointInterval => config.checkpoint_interval == 0,
            JobError::ZeroMaxPrivateAttempts => config.max_private_attempts == 0,
            JobError::ZeroKeepCheckpoints => config.keep_checkpoints == 0,
            _ => false,
        },
{
}

/// A manifest is in order exactly in its version, with a name, a configuration in
/// order, three to eight players, not past its target, and with a checkpoint.
pub proof fn lemma_manifests_in_order(
    manifest: MultiwayBatchJobManifest,
    result: Result<(), JobError>,
)
    requires
        call_ensures(MultiwayBatchJobManifest::validate, (&manifest,), result),
    ensures
        result is Ok <==> {
            &&& manifest.format_version == MULTIWAY_BATCH_JOB_FORMAT_VERSION
            &&& !is_blank(manifest.job_id@)
            &&& all_positive(manifest.config)
            &&& 3 <= manifest.player_count <= 8
            &&& manifest.completed_iterations <= manifest.config.target_iterations
            &&& manifest.checkpoint_sequence > 0
            &&& manifest.latest_checkpoint is Some
        },
        result matches Err(JobError::PlayerCount { players }) ==> players == manifest.player_count,
        result matches Err(JobError::UnsupportedVersion { version }) ==> version
            == manifest.format_version,
{
}

/// The latest checkpoint fits a manifest exactly where it is in order and has the
/// manifest's iterations.
pub proof fn lemma_latest_checkpoints(
    manifest: MultiwayBatchJobManifest,
    checkpoint: MultiwayHoldemBatchCheckpoint,
    result: Result<(), JobError>,
)
    requires
        call_ensures(MultiwayBatchJobManifest::check_latest, (&manifest, &checkpoint), result),
    ensures
        result is Ok <==> batch_checkpoint_error(checkpoint) is None && checkpoint.iterations
            == manifest.completed_iterations,
        result == Err::<(), JobError>(JobError::IterationMismatch) ==> checkpoint.iterations
            != manifest.completed_iterations,
{
}

/// A job goes on exactly under its own name, with the settings that may not change,
/// where it stopped, and on the same spot. The target may change.
pub proof fn lemma_jobs_that_go_on(
    manifest: MultiwayBatchJobManifest,
    job_id: Seq<char>,
    config: MultiwayBatchJobConfig,
    checkpoint: MultiwayHoldemBatchCheckpoint,
)
    ensures
        existing_error(manifest, job_id, config, checkpoint) is None <==> {
            &&& manifest.job_id@ == job_id
            &&& manifest.config.worker_count == config.worker_count
            &&& manifest.config.reduction_batch_size == config.reduction_batch_size
            &&& manifest.config.checkpoint_interval == config.checkpoint_interval
            &&& manifest.config.max_private_attempts == config.max_private_attempts
            &&& manifest.config.keep_checkpoints == config.keep_checkpoints
            &&& manifest.completed_iterations == checkpoint.iterations
            &&& manifest.player_count == checkpoint.player_count
            &&& manifest.tree_fingerprint == checkpoint.tree_fingerprint
            &&& manifest.range_fingerprint == checkpoint.range_fingerprint
            &&& manifest.dead_cards == checkpoint.dead_cards
            &&& manifest.config_fingerprint == checkpoint.config_fingerprint
        },
        existing_error(manifest, job_id, config, checkpoint) == Some(JobError::OtherJob)
            <==> manifest.job_id@ != job_id,
{
}

/// A new manifest describes the spot of the checkpoint, with nothing saved yet.
pub proof fn lemma_new_manifests(
    job_id: &str,
    config: MultiwayBatchJobConfig,
    checkpoint: MultiwayHoldemBatchCheckpoint,
    manifest: MultiwayBatchJobManifest,
)
    requires
        call_ensures(manifest_from_checkpoint, (job_id, config, &checkpoint), manifest),
    ensures
        manifest.format_version == MULTIWAY_BATCH_JOB_FORMAT_VERSION,
        manifest.job_id@ == job_id@,
        manifest.status is Running,
        manifest.config == config,
        manifest.player_count == checkpoint.player_count,
        manifest.tree_fingerprint == checkpoint.tree_fingerprint,
        manifest.range_fingerprint == checkpoint.range_fingerprint,
        manifest.dead_cards == checkpoint.dead_cards,
        manifest.config_fingerprint == checkpoint.config_fingerprint,
        manifest.completed_iterations == checkpoint.iterations,
        manifest.checkpoint_sequence == 0,
        manifest.latest_checkpoint is None,
        manifest.error is None,
{
}

/// A job starts exactly with a configuration in order, a name, and a solver that is
/// not past the target.
pub proof fn lemma_jobs_that_start(
    job_id: Seq<char>,
    config: MultiwayBatchJobConfig,
    iterations: u64,
)
    ensures
        start_error(job_id, config, iterations) is None <==> all_positive(config) && !is_blank(
            job_id,
        ) && iterations <= config.target_iterations,
{
}

/// A batch runs at least one iteration, up to the next checkpoint or to the target,
/// whichever comes first.
pub proof fn lemma_batches_of_a_job(iterations: u64, target: u64, interval: u64)
    requires
        iterations < target,
        interval > 0,
    ensures
        0 < batch_length(iterations, target, interval) <= interval,
        iterations + batch_length(iterations, target, interval) <= target,
        batch_length(iterations, target, interval) == interval || iterations + batch_length(
            iterations,
            target,
            interval,
        ) == target,
{
}

/// What each phase of a job asks for.
pub proof fn lemma_commands(phase: JobPhase)
    ensures
        phase is FirstCheckpoint ==> command_of(phase) == JobCommand::SaveCheckpoint(1),
        phase matches JobPhase::Checkpoint(sequence) ==> command_of(phase)
            == JobCommand::SaveCheckpoint(sequence),
        command_of(phase) is SaveCheckpoint <==> phase is FirstCheckpoint || phase is Checkpoint,
        command_of(phase) is Run <==> phase is Batch,
        phase matches JobPhase::Batch(iterations) ==> command_of(phase) == JobCommand::Run(
            iterations,
        ),
        command_of(phase) is Ask <==> phase is FirstQuestion || phase is BatchQuestion || phase
            is CheckpointQuestion,
        command_of(phase) is SaveManifest <==> phase is Created || phase is Started || phase
            is Progress || phase is Ending,
        command_of(phase) is Stop <==> phase is Done,
{
}

spec fn power(exponent: nat) -> nat
    decreases exponent,
{
    if exponent == 0 {
        1
    } else {
        10 * power((exponent - 1) as nat)
    }
}

proof fn lemma_digit_count(value: nat, width: nat)
    requires
        width > 0,
        value < power(width),
    ensures
        decimal_text(value).len() <= width,
    decreases width,
{
    reveal_with_fuel(power, 2);
    if value >= 10 {
        if width == 1 {
            assert(power(1) == 10);
        } else {
            assert(value / 10 < power((width - 1) as nat)) by (nonlinear_arith)
                requires
                    value < 10 * power((width - 1) as nat),
            ;
            lemma_digit_count(value / 10, (width - 1) as nat);
        }
    }
}

/// The name of a checkpoint has its number in twenty digits between a fixed beginning
/// and a fixed end, is recognised as the name of a checkpoint, and belongs to no other
/// number.
pub proof fn lemma_checkpoint_names(sequence: u64, other: u64)
    ensures
        checkpoint_name_text(sequence).len() == 36,
        checkpoint_name_text(sequence).take(11) == "checkpoint-"@,
        value_of(checkpoint_name_text(sequence).subrange(11, 31)) == sequence,
        checkpoint_name_text(sequence).skip(31) == ".json"@,
        names_checkpoint(checkpoint_name_text(sequence)),
        checkpoint_name_text(sequence) == checkpoint_name_text(other) <==> sequence == other,
{
    lemma_one_name(sequence);
    lemma_one_name(other);
}

proof fn lemma_one_name(sequence: u64)
    ensures
        checkpoint_name_text(sequence).len() == 36,
        checkpoint_name_text(sequence).take(11) == "checkpoint-"@,
        value_of(checkpoint_name_text(sequence).subrange(11, 31)) == sequence,
        checkpoint_name_text(sequence).skip(31) == ".json"@,
        names_checkpoint(checkpoint_name_text(sequence)),
{
    reveal_strlit("checkpoint-");
    reveal_strlit(".json");
    let digits = decimal_text(sequence as nat);
    let padded = zero_padded(digits, 20);
    reveal_with_fuel(power, 21);
    assert(power(20) == 100_000_000_000_000_000_000);
    lemma_digit_count(sequence as nat, 20);
    lemma_decimal_text_reads_back(sequence as nat);
    lemma_padding(digits, 20);
    let name = checkpoint_name_text(sequence);
    assert(name.take(11) =~= "checkpoint-"@);
    assert(name.subrange(11, 31) =~= padded);
    assert(name.skip(31) =~= ".json"@);
}

/// The files that go are as many as are too many, none twice, and none of them is
/// newer than a file that stays.
pub proof fn lemma_oldest_files_go(names: Vec<String>, keep: usize, removed: Vec<usize>, k: int, kept: int)
    requires
        call_ensures(files_to_rotate, (&names, keep), removed),
        0 <= k < removed@.len(),
        0 <= kept < names@.len(),
        !removed@.contains(kept as usize),
    ensures
        names@.len() == removed@.len() + keep,
        removed@[k] < names@.len(),
        !text_below(names@[kept]@, names@[removed@[k] as int]@),
        forall|j: int| 0 <= j < removed@.len() && j != k ==> #[trigger] removed@[j] != removed@[k],
{
    assert(names.len() == names@.len());
    assert(crate::job_files::oldest(names@, removed@.take(k), removed@[k] as int));
    let taken = removed@.take(k);
    assert(!taken.contains(kept as usize)) by {
        if taken.contains(kept as usize) {
            let j = choose|j: int| 0 <= j < taken.len() && taken[j] == kept as usize;
            assert(removed@[j] == kept as usize);
        }
    }
    assert(!text_below(names@[kept]@, names@[removed@[k] as int]@));
    assert forall|j: int| 0 <= j < removed@.len() && j != k implies #[trigger] removed@[j]
        != removed@[k] by {
        if j < k {
            assert(taken[j] == removed@[j]);
            assert(taken.contains(removed@[j]));
        } else {
            let later = removed@.take(j);
            assert(crate::job_files::oldest(names@, later, removed@[j] as int));
            assert(later[k] == removed@[k]);
            assert(later.contains(removed@[k]));
        }
    }
}

/// Files that are about to replace another lie beside it, and two of one process at
/// one time have different names.
pub proof fn lemma_temporary_names(
    parent: Seq<char>,
    name: Seq<char>,
    process: u64,
    timestamp: u64,
    counter: u64,
    other: u64,
)
    requires
        counter != other,
    ensures
        temporary_path_text(parent, name, process, timestamp, counter) != temporary_path_text(
            parent,
            name,
            process,
            timestamp,
            other,
        ),
        parent.len() > 0 ==> temporary_path_text(parent, name, process, timestamp, counter).take(
            parent.len() as int,
        ) == parent,
{
    reveal_strlit(".");
    let front = "."@ + name + ".tmp-"@ + decimal_text(process as nat) + "-"@ + decimal_text(
        timestamp as nat,
    ) + "-"@;
    let left = front + decimal_text(counter as nat);
    let right = front + decimal_text(other as nat);
    assert(front[0] == '.');
    assert(left[0] == '.' && right[0] == '.');
    lemma_decimal_text_reads_back(counter as nat);
    lemma_decimal_text_reads_back(other as nat);
    crate::laws::texts::lemma_paths(parent, left);
    crate::laws::texts::lemma_paths(parent, right);
    let a = joined_path(parent, left);
    let b = joined_path(parent, right);
    if a == b {
        if parent.len() > 0 {
            assert(a.skip(a.len() - left.len()) == left);
            assert(b.skip(b.len() - right.len()) == right);
            assert(left == right);
        }
        assert(left.skip(front.len() as int) =~= decimal_text(counter as nat));
        assert(right.skip(front.len() as int) =~= decimal_text(other as nat));
        assert(false);
    }
}

} // verus!
