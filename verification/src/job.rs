//! Persistent jobs of the batch solver: configuration, manifest, and the order
//! in which a job runs, saves and asks.
//!
//! Files are read and written by the driver of a job, which performs each
//! command and reports what came of it.
use vstd::prelude::*;

use crate::batch_store::{
    batch_checkpoint_error, BatchCheckpointError, MultiwayHoldemBatchCheckpoint,
};
use crate::cards::DeckMask;
use crate::job_files::{checkpoint_filename, checkpoint_name_text};
use crate::text::{blank, is_blank};

verus! {

pub const MULTIWAY_BATCH_JOB_FORMAT_VERSION: u32 = 1;

#[derive(Debug, Clone, Copy, PartialEq, Eq, Structural)]
pub struct MultiwayBatchJobConfig {
    /// Iterations that the solver is to have in total.
    pub target_iterations: u64,
    pub worker_count: usize,
    /// Iterations that share one snapshot.
    pub reduction_batch_size: usize,
    /// Iterations between checkpoints.
    pub checkpoint_interval: u64,
    pub max_private_attempts: usize,
    /// How many of the newest checkpoints are kept.
    pub keep_checkpoints: usize,
}

#[derive(Debug, Clone, Copy, PartialEq, Eq, Structural)]
pub enum JobError {
    ZeroTargetIterations,
    ZeroWorkerCount,
    ZeroReductionBatchSize,
    ZeroCheckpointInterval,
    ZeroMaxPrivateAttempts,
    ZeroKeepCheckpoints,
    UnsupportedVersion { version: u32 },
    EmptyJobId,
    PlayerCount { players: usize },
    PastTarget,
    NoCheckpoint,
    IterationMismatch,
    SolverPastTarget,
    AttemptLimitMismatch,
    Checkpoint(BatchCheckpointError),
    OtherJob,
    ConfigMismatch,
    SolverIterationMismatch,
    ContextMismatch,
    SequenceOverflow,
}

/// The first thing wrong with a configuration.
pub open spec fn config_error(config: MultiwayBatchJobConfig) -> Option<JobError> {
    if config.target_iterations == 0 {
        Some(JobError::ZeroTargetIterations)
    } else if config.worker_count == 0 {
        Some(JobError::ZeroWorkerCount)
    } else if config.reduction_batch_size == 0 {
        Some(JobError::ZeroReductionBatchSize)
    } else if config.checkpoint_interval == 0 {
        Some(JobError::ZeroCheckpointInterval)
    } else if config.max_private_attempts == 0 {
        Some(JobError::ZeroMaxPrivateAttempts)
    } else if config.keep_checkpoints == 0 {
        Some(JobError::ZeroKeepCheckpoints)
    } else {
        None
    }
}

impl MultiwayBatchJobConfig {
    pub fn validate(&self) -> (result: Result<(), JobError>)
        ensures
            match config_error(*self) {
                Some(error) => result == Err::<(), JobError>(error),
                None => result is Ok,
            },
    {
        if self.target_iterations == 0 {
            return Err(JobError::ZeroTargetIterations);
        }
        if self.worker_count == 0 {
            return Err(JobError::ZeroWorkerCount);
        }
        if self.reduction_batch_size == 0 {
            return Err(JobError::ZeroReductionBatchSize);
        }
        if self.checkpoint_interval == 0 {
            return Err(JobError::ZeroCheckpointInterval);
        }
        if self.max_private_attempts == 0 {
            return Err(JobError::ZeroMaxPrivateAttempts);
        }
        if self.keep_checkpoints == 0 {
            return Err(JobError::ZeroKeepCheckpoints);
        }
        Ok(())
    }
}

#[derive(Debug, Clone, Copy, PartialEq, Eq, Structural)]
pub enum MultiwayBatchJobStatus {
    Running,
    Completed,
    Failed,
    Cancelled,
}

#[derive(Debug, Clone)]
pub struct MultiwayBatchJobManifest {
    pub format_version: u32,
    pub job_id: String,
    pub status: MultiwayBatchJobStatus,
    pub config: MultiwayBatchJobConfig,
    pub player_count: usize,
    pub tree_fingerprint: u64,
    pub range_fingerprint: u64,
    pub dead_cards: DeckMask,
    pub config_fingerprint: u64,
    pub completed_iterations: u64,
    pub checkpoint_sequence: u64,
    pub latest_checkpoint: Option<String>,
    pub error: Option<String>,
}

/// The first thing wrong with a manifest.
pub open spec fn manifest_error(manifest: MultiwayBatchJobManifest) -> Option<JobError> {
    if manifest.format_version != MULTIWAY_BATCH_JOB_FORMAT_VERSION {
        Some(JobError::UnsupportedVersion { version: manifest.format_version })
    } else if is_blank(manifest.job_id@) {
        Some(JobError::EmptyJobId)
    } else {
        match config_error(manifest.config) {
            Some(error) => Some(error),
            None => if !(3 <= manifest.player_count <= 8) {
                Some(JobError::PlayerCount { players: manifest.player_count })
            } else if manifest.completed_iterations > manifest.config.target_iterations {
                Some(JobError::PastTarget)
            } else if manifest.checkpoint_sequence == 0 || manifest.latest_checkpoint is None {
                Some(JobError::NoCheckpoint)
            } else {
                None
            },
        }
    }
}

impl MultiwayBatchJobManifest {
    pub fn validate(&self) -> (result: Result<(), JobError>)
        ensures
            match manifest_error(*self) {
                Some(error) => result == Err::<(), JobError>(error),
                None => result is Ok,
            },
    {
        if self.format_version != MULTIWAY_BATCH_JOB_FORMAT_VERSION {
            return Err(JobError::UnsupportedVersion { version: self.format_version });
        }
        if blank(self.job_id.as_str()) {
            return Err(JobError::EmptyJobId);
        }
        match self.config.validate() {
            Ok(_) => {},
            Err(error) => {
                return Err(error);
            },
        }
        if self.player_count < 3 || self.player_count > 8 {
            return Err(JobError::PlayerCount { players: self.player_count });
        }
        if self.completed_iterations > self.config.target_iterations {
            return Err(JobError::PastTarget);
        }
        if self.checkpoint_sequence == 0 || self.latest_checkpoint.is_none() {
            return Err(JobError::NoCheckpoint);
        }
        Ok(())
    }

    /// Checks that a checkpoint is the one that the manifest speaks of.
    pub fn check_latest(&self, checkpoint: &MultiwayHoldemBatchCheckpoint) -> (result: Result<
        (),
        JobError,
    >)
        ensures
            match batch_checkpoint_error(*checkpoint) {
                Some(error) => result == Err::<(), JobError>(JobError::Checkpoint(error)),
                None => if checkpoint.iterations != self.completed_iterations {
                    result == Err::<(), JobError>(JobError::IterationMismatch)
                } else {
                    result is Ok
                },
            },
    {
        match checkpoint.validate() {
            Ok(_) => {},
            Err(error) => {
                return Err(JobError::Checkpoint(error));
            },
        }
        if checkpoint.iterations != self.completed_iterations {
            return Err(JobError::IterationMismatch);
        }
        Ok(())
    }
}

/// The settings that may not change are the same.
pub open spec fn same_settings(left: MultiwayBatchJobConfig, right: MultiwayBatchJobConfig) -> bool {
    &&& left.worker_count == right.worker_count
    &&& left.reduction_batch_size == right.reduction_batch_size
    &&& left.checkpoint_interval == right.checkpoint_interval
    &&& left.max_private_attempts == right.max_private_attempts
    &&& left.keep_checkpoints == right.keep_checkpoints
}

/// The job and the checkpoint are about the same spot.
pub open spec fn same_spot(
    manifest: MultiwayBatchJobManifest,
    checkpoint: MultiwayHoldemBatchCheckpoint,
) -> bool {
    &&& checkpoint.player_count == manifest.player_count
    &&& checkpoint.tree_fingerprint == manifest.tree_fingerprint
    &&& checkpoint.range_fingerprint == manifest.range_fingerprint
    &&& checkpoint.dead_cards == manifest.dead_cards
    &&& checkpoint.config_fingerprint == manifest.config_fingerprint
}

/// Why an existing job cannot go on with a solver, whose checkpoint is given.
pub open spec fn existing_error(
    manifest: MultiwayBatchJobManifest,
    job_id: Seq<char>,
    config: MultiwayBatchJobConfig,
    checkpoint: MultiwayHoldemBatchCheckpoint,
) -> Option<JobError> {
    if manifest.job_id@ != job_id {
        Some(JobError::OtherJob)
    } else if !same_settings(manifest.config, config) {
        Some(JobError::ConfigMismatch)
    } else if manifest.completed_iterations != checkpoint.iterations {
        Some(JobError::SolverIterationMismatch)
    } else if !same_spot(manifest, checkpoint) {
        Some(JobError::ContextMismatch)
    } else {
        None
    }
}

fn same_text(left: &str, right: &str) -> (yes: bool)
    ensures
        yes == (left@ == right@),
{
    let length = left.unicode_len();
    if length != right.unicode_len() {
        return false;
    }
    let mut index: usize = 0;
    while index < length
        invariant
            index <= length,
            length == left@.len(),
            length == right@.len(),
            forall|i: int| 0 <= i < index ==> left@[i] == right@[i],
        decreases length - index,
    {
        if left.get_char(index) != right.get_char(index) {
            assert(left@[index as int] != right@[index as int]);
            return false;
        }
        index = index + 1;
    }
    assert(left@ =~= right@);
    true
}

/// Checks that an existing job can go on with a solver.
pub fn validate_existing_job(
    manifest: &MultiwayBatchJobManifest,
    job_id: &str,
    config: &MultiwayBatchJobConfig,
    checkpoint: &MultiwayHoldemBatchCheckpoint,
) -> (result: Result<(), JobError>)
    ensures
        match existing_error(*manifest, job_id@, *config, *checkpoint) {
            Some(error) => result == Err::<(), JobError>(error),
            None => result is Ok,
        },
{
    if !same_text(manifest.job_id.as_str(), job_id) {
        return Err(JobError::OtherJob);
    }
    if manifest.config.worker_count != config.worker_count || manifest.config.reduction_batch_size
        != config.reduction_batch_size || manifest.config.checkpoint_interval
        != config.checkpoint_interval || manifest.config.max_private_attempts
        != config.max_private_attempts || manifest.config.keep_checkpoints
        != config.keep_checkpoints {
        return Err(JobError::ConfigMismatch);
    }
    if manifest.completed_iterations != checkpoint.iterations {
        return Err(JobError::SolverIterationMismatch);
    }
    if checkpoint.player_count != manifest.player_count || checkpoint.tree_fingerprint
        != manifest.tree_fingerprint || checkpoint.range_fingerprint != manifest.range_fingerprint
        || checkpoint.dead_cards != manifest.dead_cards || checkpoint.config_fingerprint
        != manifest.config_fingerprint {
        return Err(JobError::ContextMismatch);
    }
    Ok(())
}

/// The manifest of a job that starts from a checkpoint.
pub fn manifest_from_checkpoint(
    job_id: &str,
    config: MultiwayBatchJobConfig,
    checkpoint: &MultiwayHoldemBatchCheckpoint,
) -> (manifest: MultiwayBatchJobManifest)
    ensures
        manifest.format_version == MULTIWAY_BATCH_JOB_FORMAT_VERSION,
        manifest.job_id@ == job_id@,
        manifest.status == MultiwayBatchJobStatus::Running,
        manifest.config == config,
        same_spot(manifest, *checkpoint),
        manifest.completed_iterations == checkpoint.iterations,
        manifest.checkpoint_sequence == 0,
        manifest.latest_checkpoint is None,
        manifest.error is None,
{
    let mut id = String::new();
    id.append(job_id);
    assert(id@ =~= job_id@);
    MultiwayBatchJobManifest {
        format_version: MULTIWAY_BATCH_JOB_FORMAT_VERSION,
        job_id: id,
        status: MultiwayBatchJobStatus::Running,
        config,
        player_count: checkpoint.player_count,
        tree_fingerprint: checkpoint.tree_fingerprint,
        range_fingerprint: checkpoint.range_fingerprint,
        dead_cards: checkpoint.dead_cards,
        config_fingerprint: checkpoint.config_fingerprint,
        completed_iterations: checkpoint.iterations,
        checkpoint_sequence: 0,
        latest_checkpoint: None,
        error: None,
    }
}

/// Where a job stands.
#[derive(Debug, Clone, Copy, PartialEq, Eq, Structural)]
pub enum JobPhase {
    /// The first checkpoint is to be saved.
    FirstCheckpoint,
    /// The manifest of a new job is to be saved.
    Created,
    /// The manifest is to be saved as running.
    Started,
    /// Whether to begin at all.
    FirstQuestion,
    /// Whether to run the next batch.
    BatchQuestion,
    /// A batch of some iterations runs.
    Batch(u64),
    /// A checkpoint with a sequence number is to be saved.
    Checkpoint(u64),
    /// The manifest is to be saved with the progress.
    Progress,
    /// Whether to go on after a checkpoint.
    CheckpointQuestion,
    /// The manifest is to be saved for the last time.
    Ending,
    Done,
}

/// What the driver of a job is to do next.
#[derive(Debug, Clone, Copy, PartialEq, Eq, Structural)]
pub enum JobCommand {
    SaveCheckpoint(u64),
    SaveManifest,
    Ask,
    Run(u64),
    Stop,
}

pub open spec fn command_of(phase: JobPhase) -> JobCommand {
    match phase {
        JobPhase::FirstCheckpoint => JobCommand::SaveCheckpoint(1),
        JobPhase::Checkpoint(sequence) => JobCommand::SaveCheckpoint(sequence),
        JobPhase::Created => JobCommand::SaveManifest,
        JobPhase::Started => JobCommand::SaveManifest,
        JobPhase::Progress => JobCommand::SaveManifest,
        JobPhase::Ending => JobCommand::SaveManifest,
        JobPhase::FirstQuestion => JobCommand::Ask,
        JobPhase::BatchQuestion => JobCommand::Ask,
        JobPhase::CheckpointQuestion => JobCommand::Ask,
        JobPhase::Batch(iterations) => JobCommand::Run(iterations),
        JobPhase::Done => JobCommand::Stop,
    }
}

/// A job that is being worked on, with the iterations of its solver.
#[derive(Debug)]
pub struct JobRun {
    pub manifest: MultiwayBatchJobManifest,
    pub phase: JobPhase,
    pub iterations: u64,
}

impl JobRun {
    pub open spec fn target(self) -> u64 {
        self.manifest.config.target_iterations
    }

    /// What holds of a job at every moment.
    pub open spec fn wf(self) -> bool {
        &&& config_error(self.manifest.config) is None
        &&& self.iterations <= self.target()
        &&& self.manifest.completed_iterations <= self.iterations
        &&& if self.phase == JobPhase::FirstCheckpoint {
            &&& self.manifest.format_version == MULTIWAY_BATCH_JOB_FORMAT_VERSION
            &&& !is_blank(self.manifest.job_id@)
            &&& 3 <= self.manifest.player_count <= 8
            &&& self.manifest.completed_iterations == self.iterations
        } else {
            manifest_error(self.manifest) is None
        }
        &&& match self.phase {
            JobPhase::Batch(count) => {
                &&& 0 < count <= self.manifest.config.checkpoint_interval
                &&& self.iterations + count <= self.target()
                &&& self.manifest.completed_iterations == self.iterations
                &&& self.manifest.status == MultiwayBatchJobStatus::Running
            },
            JobPhase::Checkpoint(sequence) => {
                &&& sequence == self.manifest.checkpoint_sequence + 1
                &&& self.manifest.status == MultiwayBatchJobStatus::Running
            },
            JobPhase::Done => self.manifest.completed_iterations == self.iterations,
            JobPhase::Ending => self.manifest.completed_iterations == self.iterations,
            JobPhase::BatchQuestion => {
                &&& self.iterations < self.target()
                &&& self.manifest.completed_iterations == self.iterations
                &&& self.manifest.status == MultiwayBatchJobStatus::Running
            },
            _ => {
                &&& self.manifest.completed_iterations == self.iterations
                &&& self.manifest.status == MultiwayBatchJobStatus::Running
            },
        }
        &&& (self.phase == JobPhase::Ending || self.phase == JobPhase::Done)
            && self.manifest.status == MultiwayBatchJobStatus::Completed ==> self.iterations
            == self.target()
        &&& (self.phase == JobPhase::Ending || self.phase == JobPhase::Done) ==> self.manifest.status
            != MultiwayBatchJobStatus::Running
    }

    /// Nothing of the job's identity differs.
    pub open spec fn same_job(self, before: Self) -> bool {
        &&& self.manifest.format_version == before.manifest.format_version
        &&& self.manifest.job_id@ == before.manifest.job_id@
        &&& self.manifest.config == before.manifest.config
        &&& self.manifest.player_count == before.manifest.player_count
        &&& self.manifest.tree_fingerprint == before.manifest.tree_fingerprint
        &&& self.manifest.range_fingerprint == before.manifest.range_fingerprint
        &&& self.manifest.dead_cards == before.manifest.dead_cards
        &&& self.manifest.config_fingerprint == before.manifest.config_fingerprint
    }

    /// Begins a job that has no manifest yet.
    pub fn start_new(
        job_id: &str,
        config: MultiwayBatchJobConfig,
        checkpoint: &MultiwayHoldemBatchCheckpoint,
    ) -> (result: Result<Self, JobError>)
        ensures
            match start_error(job_id@, config, checkpoint.iterations) {
                Some(error) => result == Err::<Self, JobError>(error),
                None => if checkpoint.max_private_attempts != config.max_private_attempts {
                    result == Err::<Self, JobError>(JobError::AttemptLimitMismatch)
                } else {
                    match batch_checkpoint_error(*checkpoint) {
                        Some(error) => result == Err::<Self, JobError>(JobError::Checkpoint(error)),
                        None => {
                            &&& result matches Ok(run)
                            &&& run.wf()
                            &&& run.phase == JobPhase::FirstCheckpoint
                            &&& run.iterations == checkpoint.iterations
                            &&& run.manifest.job_id@ == job_id@
                            &&& run.manifest.config == config
                            &&& same_spot(run.manifest, *checkpoint)
                            &&& run.manifest.checkpoint_sequence == 0
                            &&& run.manifest.error is None
                        },
                    }
                },
            },
    {
        match check_start(job_id, config, checkpoint.iterations) {
            Ok(_) => {},
            Err(error) => {
                return Err(error);
            },
        }
        if checkpoint.max_private_attempts != config.max_private_attempts {
            return Err(JobError::AttemptLimitMismatch);
        }
        match checkpoint.validate() {
            Ok(_) => {},
            Err(error) => {
                return Err(JobError::Checkpoint(error));
            },
        }
        Ok(
            JobRun {
                manifest: manifest_from_checkpoint(job_id, config, checkpoint),
                phase: JobPhase::FirstCheckpoint,
                iterations: checkpoint.iterations,
            },
        )
    }

    /// Goes on with a job. Its target may have changed, its other settings not.
    pub fn start_existing(
        existing: MultiwayBatchJobManifest,
        job_id: &str,
        config: MultiwayBatchJobConfig,
        checkpoint: &MultiwayHoldemBatchCheckpoint,
    ) -> (result: Result<Self, JobError>)
        ensures
            match start_error(job_id@, config, checkpoint.iterations) {
                Some(error) => result == Err::<Self, JobError>(error),
                None => match manifest_error(existing) {
                    Some(error) => result == Err::<Self, JobError>(error),
                    None => match existing_error(existing, job_id@, config, *checkpoint) {
                        Some(error) => result == Err::<Self, JobError>(error),
                        None => {
                            &&& result matches Ok(run)
                            &&& run.wf()
                            &&& run.phase == JobPhase::Started
                            &&& run.iterations == checkpoint.iterations
                            &&& run.manifest == (MultiwayBatchJobManifest {
                                config,
                                status: MultiwayBatchJobStatus::Running,
                                error: None,
                                ..existing
                            })
                        },
                    },
                },
            },
    {
        match check_start(job_id, config, checkpoint.iterations) {
            Ok(_) => {},
            Err(error) => {
                return Err(error);
            },
        }
        match existing.validate() {
            Ok(_) => {},
            Err(error) => {
                return Err(error);
            },
        }
        match validate_existing_job(&existing, job_id, &config, checkpoint) {
            Ok(_) => {},
            Err(error) => {
                return Err(error);
            },
        }
        let mut manifest = existing;
        manifest.config = config;
        manifest.status = MultiwayBatchJobStatus::Running;
        manifest.error = None;
        Ok(JobRun { manifest, phase: JobPhase::Started, iterations: checkpoint.iterations })
    }

    /// What to do next.
    pub fn command(&self) -> (command: JobCommand)
        ensures
            command == command_of(self.phase),
    {
        match self.phase {
            JobPhase::FirstCheckpoint => JobCommand::SaveCheckpoint(1),
            JobPhase::Checkpoint(sequence) => JobCommand::SaveCheckpoint(sequence),
            JobPhase::Created => JobCommand::SaveManifest,
            JobPhase::Started => JobCommand::SaveManifest,
            JobPhase::Progress => JobCommand::SaveManifest,
            JobPhase::Ending => JobCommand::SaveManifest,
            JobPhase::FirstQuestion => JobCommand::Ask,
            JobPhase::BatchQuestion => JobCommand::Ask,
            JobPhase::CheckpointQuestion => JobCommand::Ask,
            JobPhase::Batch(iterations) => JobCommand::Run(iterations),
            JobPhase::Done => JobCommand::Stop,
        }
    }

    /// A checkpoint has been saved: the manifest names it.
    pub fn checkpoint_saved(&mut self)
        requires
            old(self).wf(),
            command_of(old(self).phase) is SaveCheckpoint,
        ensures
            final(self).wf(),
            checkpoint_noted(*old(self), *final(self)),
    {
        let (sequence, next): (u64, JobPhase) = match self.phase {
            JobPhase::Checkpoint(sequence) => (sequence, JobPhase::Progress),
            _ => (1, JobPhase::Created),
        };
        self.manifest.checkpoint_sequence = sequence;
        self.manifest.latest_checkpoint = Some(checkpoint_filename(sequence));
        self.manifest.completed_iterations = self.iterations;
        self.phase = next;
    }

    /// The manifest has been saved.
    pub fn manifest_saved(&mut self)
        requires
            old(self).wf(),
            command_of(old(self).phase) == JobCommand::SaveManifest,
        ensures
            final(self).wf(),
            manifest_noted(*old(self), *final(self)),
    {
        self.phase = match self.phase {
            JobPhase::Created => JobPhase::Started,
            JobPhase::Started => JobPhase::FirstQuestion,
            JobPhase::Progress => JobPhase::CheckpointQuestion,
            _ => JobPhase::Done,
        };
    }

    /// Whether to go on has been answered. A no cancels the job; a yes runs the
    /// next batch, asks before it, or completes the job.
    pub fn answered(&mut self, go_on: bool)
        requires
            old(self).wf(),
            command_of(old(self).phase) == JobCommand::Ask,
        ensures
            final(self).wf(),
            answer_taken(*old(self), *final(self), go_on),
    {
        if !go_on {
            self.manifest.status = MultiwayBatchJobStatus::Cancelled;
            self.phase = JobPhase::Ending;
            return;
        }
        let target = self.manifest.config.target_iterations;
        if self.iterations >= target {
            self.manifest.status = MultiwayBatchJobStatus::Completed;
            self.manifest.error = None;
            self.phase = JobPhase::Ending;
            return;
        }
        match self.phase {
            JobPhase::BatchQuestion => {
                let remaining = target - self.iterations;
                let interval = self.manifest.config.checkpoint_interval;
                let count = if remaining < interval {
                    remaining
                } else {
                    interval
                };
                self.phase = JobPhase::Batch(count);
            },
            _ => {
                self.phase = JobPhase::BatchQuestion;
            },
        }
    }

    /// A batch has run to its end: a checkpoint is due.
    pub fn batch_finished(&mut self) -> (result: Result<(), JobError>)
        requires
            old(self).wf(),
            old(self).phase is Batch,
        ensures
            final(self).wf(),
            batch_noted(*old(self), *final(self), result),
    {
        let count = match self.phase {
            JobPhase::Batch(count) => count,
            _ => 0,
        };
        let sequence = match self.manifest.checkpoint_sequence.checked_add(1) {
            Some(sequence) => sequence,
            None => {
                return Err(JobError::SequenceOverflow);
            },
        };
        self.iterations = self.iterations + count;
        self.phase = JobPhase::Checkpoint(sequence);
        Ok(())
    }

    /// A batch has failed after some more iterations: the manifest says so.
    pub fn batch_failed(&mut self, error: String, done: u64)
        requires
            old(self).wf(),
            old(self).phase is Batch,
            done <= old(self).phase->Batch_0,
        ensures
            final(self).wf(),
            failure_noted(*old(self), *final(self), error, done),
    {
        self.iterations = self.iterations + done;
        self.manifest.status = MultiwayBatchJobStatus::Failed;
        self.manifest.completed_iterations = self.iterations;
        self.manifest.error = Some(error);
        self.phase = JobPhase::Ending;
    }
}

/// A checkpoint was saved: the manifest names it.
pub open spec fn checkpoint_noted(before: JobRun, after: JobRun) -> bool {
    &&& after.same_job(before)
    &&& after.iterations == before.iterations
    &&& ({
        let sequence = command_of(before.phase)->SaveCheckpoint_0;
        &&& after.manifest.checkpoint_sequence == sequence
        &&& after.manifest.latest_checkpoint matches Some(name)
        &&& name@ == checkpoint_name_text(sequence)
        &&& after.manifest.completed_iterations == before.iterations
        &&& after.manifest.status == before.manifest.status
        &&& after.manifest.error == before.manifest.error
        &&& after.phase == if before.phase == JobPhase::FirstCheckpoint {
            JobPhase::Created
        } else {
            JobPhase::Progress
        }
    })
}

/// The manifest was saved: the next phase begins.
pub open spec fn manifest_noted(before: JobRun, after: JobRun) -> bool {
    after == (JobRun {
        phase: match before.phase {
            JobPhase::Created => JobPhase::Started,
            JobPhase::Started => JobPhase::FirstQuestion,
            JobPhase::Progress => JobPhase::CheckpointQuestion,
            _ => JobPhase::Done,
        },
        ..before
    })
}

/// Whether to go on was answered.
pub open spec fn answer_taken(before: JobRun, after: JobRun, go_on: bool) -> bool {
    &&& after.same_job(before)
    &&& after.iterations == before.iterations
    &&& after.manifest.completed_iterations == before.manifest.completed_iterations
    &&& after.manifest.checkpoint_sequence == before.manifest.checkpoint_sequence
    &&& after.manifest.latest_checkpoint == before.manifest.latest_checkpoint
    &&& if !go_on {
        &&& after.phase == JobPhase::Ending
        &&& after.manifest.status == MultiwayBatchJobStatus::Cancelled
        &&& after.manifest.error == before.manifest.error
    } else if before.iterations >= before.target() {
        &&& after.phase == JobPhase::Ending
        &&& after.manifest.status == MultiwayBatchJobStatus::Completed
        &&& after.manifest.error is None
    } else if before.phase == JobPhase::BatchQuestion {
        &&& after.phase == JobPhase::Batch(
            batch_length(
                before.iterations,
                before.target(),
                before.manifest.config.checkpoint_interval,
            ),
        )
        &&& after.manifest == before.manifest
    } else {
        &&& after.phase == JobPhase::BatchQuestion
        &&& after.manifest == before.manifest
    }
}

/// A batch ran to its end: a checkpoint is due.
pub open spec fn batch_noted(before: JobRun, after: JobRun, result: Result<(), JobError>) -> bool {
    if before.manifest.checkpoint_sequence == u64::MAX {
        &&& result == Err::<(), JobError>(JobError::SequenceOverflow)
        &&& after == before
    } else {
        &&& result is Ok
        &&& after == (JobRun {
            phase: JobPhase::Checkpoint(
                (before.manifest.checkpoint_sequence + 1) as u64,
            ),
            iterations: (before.iterations + before.phase->Batch_0) as u64,
            ..before
        })
    }
}

/// A batch failed after some more iterations.
pub open spec fn failure_noted(
    before: JobRun,
    after: JobRun,
    error: String,
    done: u64,
) -> bool {
    &&& after.same_job(before)
    &&& after.phase == JobPhase::Ending
    &&& after.iterations == before.iterations + done
    &&& after.manifest.status == MultiwayBatchJobStatus::Failed
    &&& after.manifest.completed_iterations == before.iterations + done
    &&& after.manifest.error == Some(error)
    &&& after.manifest.checkpoint_sequence == before.manifest.checkpoint_sequence
    &&& after.manifest.latest_checkpoint == before.manifest.latest_checkpoint
}

/// Up to the next checkpoint, and not past the target.
pub open spec fn batch_length(iterations: u64, target: u64, interval: u64) -> u64 {
    if target - iterations < interval {
        (target - iterations) as u64
    } else {
        interval
    }
}

/// Why a job cannot start at all.
pub open spec fn start_error(
    job_id: Seq<char>,
    config: MultiwayBatchJobConfig,
    iterations: u64,
) -> Option<JobError> {
    match config_error(config) {
        Some(error) => Some(error),
        None => if is_blank(job_id) {
            Some(JobError::EmptyJobId)
        } else if iterations > config.target_iterations {
            Some(JobError::SolverPastTarget)
        } else {
            None
        },
    }
}

fn check_start(job_id: &str, config: MultiwayBatchJobConfig, iterations: u64) -> (result: Result<
    (),
    JobError,
>)
    ensures
        match start_error(job_id@, config, iterations) {
            Some(error) => result == Err::<(), JobError>(error),
            None => result is Ok,
        },
{
    match config.validate() {
        Ok(_) => {},
        Err(error) => {
            return Err(error);
        },
    }
    if blank(job_id) {
        return Err(JobError::EmptyJobId);
    }
    if iterations > config.target_iterations {
        return Err(JobError::SolverPastTarget);
    }
    Ok(())
}

/// Whenever a job is to save its manifest, the manifest is valid.
pub proof fn lemma_saved_manifests_are_valid(run: JobRun)
    requires
        run.wf(),
        command_of(run.phase) == JobCommand::SaveManifest,
    ensures
        manifest_error(run.manifest) is None,
{
}

/// A job that ends as completed has reached its target, and says so.
pub proof fn lemma_completed_jobs_reach_their_target(run: JobRun)
    requires
        run.wf(),
        run.phase == JobPhase::Done,
        run.manifest.status == MultiwayBatchJobStatus::Completed,
    ensures
        run.manifest.completed_iterations == run.target(),
{
}

} // verus!
