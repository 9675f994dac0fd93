//! The batch solver: sampled deals over one public tree.
//!
//! One update draws a deal for a traverser and walks the tree with it. The
//! driver computes strategies and values between the steps of the walk.
use vstd::prelude::*;

use crate::arena::{
    public_error, ArenaError, MultiwayHoldemPublicArena, MultiwayHoldemPublicProfile,
};
use crate::batch_metrics::{
    deal_counted, filled, fresh_metrics, BatchMetricsView, MetricsError,
    MultiwayBatchSamplingMetrics, MultiwayCompiledProfileCacheMetrics,
};
use crate::batch_store::{
    batch_checkpoint_entries, batch_checkpoint_error, batch_data_ok, batch_key, batch_keys,
    batch_views, entry_opened, first_bad_hand, known_data, lemma_batch_entries_accepted,
    lemma_batch_entries_round_trip, lemma_data_ok_after, lemma_restored_data_ok, make_batch_key,
    open_entry, record_entry, restore_batch_entries, BatchCheckpointError,
    MultiwayHoldemBatchCheckpoint, MULTIWAY_BATCH_CHECKPOINT_FORMAT_VERSION,
};
use crate::bits::all_finite;
use crate::cards::{Combo, DeckMask};
use crate::checkpoint::{all_usable, entry_views, restored, table_view, InfoSetData};
use crate::compile::tree_in_order;
use crate::hash::{fnv_words, FNV_OFFSET};
use crate::holdem::MultiwayCompiledHoldemGame;
use crate::multiway::MultiwayGameNode;
use crate::payoff::{all_valid, multiway_hands_error};
use crate::profile_cache::MultiwayCompiledProfileCache;
use crate::ranges::{candidates_valid, Candidate};
use crate::rng::{draw_of, lemma_state_never_zero, seeded_state, xorshift, XorShift64};
use crate::sampler::{
    dealt_so_far, first_empty, is_candidate, lemma_sampled_deals_are_legal, sampled,
    sampler_words, thresholds_fit, MultiwayPrivateDealSampler, SamplerError,
};
use crate::solver::{lemma_floored_usable, visited};
use crate::stage::Stage;
use crate::table::{lemma_entry, Key, Table};
use crate::tree::{tree_error, GameTree, NodeFacts};
use crate::tree_fingerprint::tree_words;
use crate::walk::{
    plan_sampled, planned, sampled_plan, samples, shape_targets, Plan, Shape, Walk, WalkCounters,
    WalkEvent, WalkStep,
};

verus! {

/// Keeps the stream of deals apart from the stream of the walk.
pub const SAMPLER_SEED_MIX: u64 = 0xa076_1d64_78bd_642f;

#[derive(Debug, Clone, Copy, PartialEq, Eq, Structural)]
pub enum BatchError {
    Arena(ArenaError),
    ZeroAttempts,
    RangeCount { ranges: usize, seats: usize },
    Sampler(SamplerError),
    Checkpoint(BatchCheckpointError),
    ContextMismatch,
    Metrics(MetricsError),
    InvalidHand { entry: usize },
    NotADecision { node: usize },
    ActionCountChange { player: usize, node: usize },
    NoMetadata { node: usize },
}

/// Why a solver cannot be set up.
pub open spec fn setup_error(
    tree: GameTree,
    facts: Seq<NodeFacts>,
    candidates: Seq<Vec<Candidate>>,
    max_private_attempts: usize,
) -> Option<BatchError> {
    let seats = tree.nodes@[tree.root as int].state.table_size;
    match tree_error(tree, facts) {
        Some(error) => Some(BatchError::Arena(ArenaError::Tree(error))),
        None => if !(3 <= seats <= 8) {
            Some(BatchError::Arena(ArenaError::SeatCount { seats }))
        } else if max_private_attempts == 0 {
            Some(BatchError::ZeroAttempts)
        } else if candidates.len() != seats {
            Some(BatchError::RangeCount { ranges: candidates.len() as usize, seats })
        } else {
            match first_empty(candidates, 0) {
                Some(player) => Some(
                    BatchError::Sampler(SamplerError::NoLegalCombos { range: player as usize }),
                ),
                None => None,
            }
        },
    }
}

pub struct MultiwayHoldemBatchSolver {
    pub public_arena: MultiwayHoldemPublicArena,
    pub config_fingerprint: u64,
    pub max_private_attempts: usize,
    pub private_sampler: MultiwayPrivateDealSampler,
    pub traversal_rng: XorShift64,
    pub profile_cache: Option<MultiwayCompiledProfileCache>,
    pub infosets: Table<InfoSetData>,
    pub iterations: u64,
    pub metrics: MultiwayBatchSamplingMetrics,
}

pub open spec fn cache_capacity(cache: Option<MultiwayCompiledProfileCache>) -> usize {
    match cache {
        Some(found) => found.capacity,
        None => 0,
    }
}

pub open spec fn cache_metrics(
    cache: Option<MultiwayCompiledProfileCache>,
) -> MultiwayCompiledProfileCacheMetrics {
    match cache {
        Some(found) => MultiwayCompiledProfileCacheMetrics {
            entries: found.profiles@.len() as usize,
            ..found.metrics
        },
        None => MultiwayCompiledProfileCacheMetrics {
            hits: 0,
            misses: 0,
            evictions: 0,
            entries: 0,
        },
    }
}

/// The counters with those of the cache.
pub open spec fn with_cache(
    metrics: BatchMetricsView,
    cache: MultiwayCompiledProfileCacheMetrics,
) -> BatchMetricsView {
    BatchMetricsView {
        compiled_profile_cache_hits: cache.hits,
        compiled_profile_cache_misses: cache.misses,
        compiled_profile_cache_evictions: cache.evictions,
        ..metrics
    }
}

/// The counters of a checkpoint, with zeros where lists by player are missing.
pub open spec fn filled_metrics(metrics: BatchMetricsView, player_count: usize) -> BatchMetricsView {
    BatchMetricsView {
        traverser_updates_by_player: filled(metrics.traverser_updates_by_player, player_count),
        sampled_private_deals_by_player: filled(
            metrics.sampled_private_deals_by_player,
            player_count,
        ),
        private_sampling_attempts_by_player: filled(
            metrics.private_sampling_attempts_by_player,
            player_count,
        ),
        infoset_visits_by_player: filled(metrics.infoset_visits_by_player, player_count),
        ..metrics
    }
}

/// The checkpoint was written for this tree, these ranges and this
/// configuration.
pub open spec fn same_context(
    checkpoint: MultiwayHoldemBatchCheckpoint,
    tree: GameTree,
    candidates: Seq<Vec<Candidate>>,
    dead_cards: u64,
    config_fingerprint: u64,
    max_private_attempts: usize,
) -> bool {
    &&& checkpoint.player_count == tree.nodes@[tree.root as int].state.table_size
    &&& checkpoint.tree_fingerprint == fnv_words(FNV_OFFSET, tree_words(tree))
    &&& checkpoint.config_fingerprint == config_fingerprint
    &&& checkpoint.dead_cards == dead_cards
    &&& checkpoint.max_private_attempts == max_private_attempts
    &&& checkpoint.range_fingerprint == fnv_words(FNV_OFFSET, sampler_words(dead_cards, candidates))
}

/// Why a checkpoint cannot be resumed.
pub open spec fn batch_resume_error(
    checkpoint: MultiwayHoldemBatchCheckpoint,
    tree: GameTree,
    facts: Seq<NodeFacts>,
    candidates: Seq<Vec<Candidate>>,
    dead_cards: u64,
    config_fingerprint: u64,
    max_private_attempts: usize,
) -> Option<BatchError> {
    match batch_checkpoint_error(checkpoint) {
        Some(error) => Some(BatchError::Checkpoint(error)),
        None => match setup_error(tree, facts, candidates, max_private_attempts) {
            Some(error) => Some(error),
            None => if !same_context(
                checkpoint,
                tree,
                candidates,
                dead_cards,
                config_fingerprint,
                max_private_attempts,
            ) {
                Some(BatchError::ContextMismatch)
            } else {
                match first_bad_hand(checkpoint.infosets@, 0) {
                    Some(entry) => Some(BatchError::InvalidHand { entry: entry as usize }),
                    None => None,
                }
            },
        },
    }
}

impl MultiwayHoldemBatchSolver {
    pub open spec fn players(self) -> usize {
        self.public_arena.player_count
    }

    pub open spec fn wf(self) -> bool {
        &&& self.public_arena.wf()
        &&& self.max_private_attempts > 0
        &&& self.private_sampler.wf()
        &&& self.private_sampler.candidates@.len() == self.players()
        &&& self.traversal_rng.state != 0
        &&& self.profile_cache matches Some(cache) ==> cache.wf()
        &&& self.infosets.wf()
        &&& batch_keys(self.infosets.entries@)
        &&& self.metrics.sized(self.players())
    }

    /// The information sets belong to the table's players, with usable sums.
    pub open spec fn sound(self) -> bool {
        self.wf() && batch_data_ok(self.infosets, self.players())
    }

    /// A solver without a cache of compiled deals.
    pub fn new(
        tree: GameTree,
        facts: &[NodeFacts],
        candidates: Vec<Vec<Candidate>>,
        thresholds: Vec<Vec<u64>>,
        dead_cards: DeckMask,
        seed: u64,
        config_fingerprint: u64,
        max_private_attempts: usize,
    ) -> (result: Result<Self, BatchError>)
        requires
            facts@.len() == tree.nodes@.len(),
            candidates_valid(candidates@),
            thresholds_fit(candidates@, thresholds@),
        ensures
            match setup_error(tree, facts@, candidates@, max_private_attempts) {
                Some(error) => result == Err::<Self, BatchError>(error),
                None => result matches Ok(solver) && solver.fresh(
                    tree,
                    candidates@,
                    thresholds@,
                    dead_cards,
                    seed,
                    config_fingerprint,
                    max_private_attempts,
                    0,
                ),
            },
    {
        Self::new_with_profile_cache_capacity(
            tree,
            facts,
            candidates,
            thresholds,
            dead_cards,
            seed,
            config_fingerprint,
            max_private_attempts,
            0,
        )
    }

    /// A solver that has done nothing.
    pub open spec fn fresh(
        self,
        tree: GameTree,
        candidates: Seq<Vec<Candidate>>,
        thresholds: Seq<Vec<u64>>,
        dead_cards: u64,
        seed: u64,
        config_fingerprint: u64,
        max_private_attempts: usize,
        profile_cache_capacity: usize,
    ) -> bool {
        &&& self.wf()
        &&& self.public_arena.tree == tree
        &&& self.config_fingerprint == config_fingerprint
        &&& self.max_private_attempts == max_private_attempts
        &&& self.private_sampler.candidates@ == candidates
        &&& self.private_sampler.thresholds@ == thresholds
        &&& self.private_sampler.dead_cards == dead_cards
        &&& self.private_sampler.rng.state == seeded_state(seed ^ SAMPLER_SEED_MIX)
        &&& self.private_sampler.total_attempts == 0
        &&& self.traversal_rng.state == seeded_state(seed)
        &&& cache_capacity(self.profile_cache) == profile_cache_capacity
        &&& cache_metrics(self.profile_cache) == (MultiwayCompiledProfileCacheMetrics {
            hits: 0,
            misses: 0,
            evictions: 0,
            entries: 0,
        })
        &&& self.infosets.entries@.len() == 0
        &&& self.iterations == 0
        &&& self.metrics@ == fresh_metrics(self.players())
    }

    pub fn new_with_profile_cache_capacity(
        tree: GameTree,
        facts: &[NodeFacts],
        candidates: Vec<Vec<Candidate>>,
        thresholds: Vec<Vec<u64>>,
        dead_cards: DeckMask,
        seed: u64,
        config_fingerprint: u64,
        max_private_attempts: usize,
        profile_cache_capacity: usize,
    ) -> (result: Result<Self, BatchError>)
        requires
            facts@.len() == tree.nodes@.len(),
            candidates_valid(candidates@),
            thresholds_fit(candidates@, thresholds@),
        ensures
            match setup_error(tree, facts@, candidates@, max_private_attempts) {
                Some(error) => result == Err::<Self, BatchError>(error),
                None => result matches Ok(solver) && solver.fresh(
                    tree,
                    candidates@,
                    thresholds@,
                    dead_cards,
                    seed,
                    config_fingerprint,
                    max_private_attempts,
                    profile_cache_capacity,
                ),
            },
    {
        let public_arena = match MultiwayHoldemPublicArena::new(tree, facts) {
            Ok(arena) => arena,
            Err(error) => {
                return Err(BatchError::Arena(error));
            },
        };
        if max_private_attempts == 0 {
            return Err(BatchError::ZeroAttempts);
        }
        let player_count = public_arena.player_count();
        if candidates.len() != player_count {
            return Err(BatchError::RangeCount { ranges: candidates.len(), seats: player_count });
        }
        let private_sampler = match MultiwayPrivateDealSampler::new(
            candidates,
            thresholds,
            dead_cards,
            seed ^ SAMPLER_SEED_MIX,
        ) {
            Ok(sampler) => sampler,
            Err(error) => {
                return Err(BatchError::Sampler(error));
            },
        };
        let profile_cache = MultiwayCompiledProfileCache::new(profile_cache_capacity);
        Ok(
            MultiwayHoldemBatchSolver {
                public_arena,
                config_fingerprint,
                max_private_attempts,
                private_sampler,
                traversal_rng: XorShift64::new(seed),
                profile_cache,
                infosets: Table::new(),
                iterations: 0,
                metrics: MultiwayBatchSamplingMetrics::for_player_count(player_count),
            },
        )
    }

    pub fn iterations(&self) -> (iterations: u64)
        ensures
            iterations == self.iterations,
    {
        self.iterations
    }

    pub fn infoset_count(&self) -> (count: usize)
        ensures
            count == self.infosets.entries@.len(),
    {
        self.infosets.len()
    }

    pub fn private_sampler(&self) -> (sampler: &MultiwayPrivateDealSampler)
        ensures
            *sampler == self.private_sampler,
    {
        &self.private_sampler
    }

    /// The information set of a player with a hand at a public node, if it was
    /// visited.
    pub fn info(&self, player: usize, public_node: usize, hand: Combo) -> (data: Option<
        &InfoSetData,
    >)
        requires
            self.wf(),
        ensures
            data is Some <==> self.infosets@.dom().contains(batch_key(player, public_node, hand)),
            data matches Some(found) ==> *found == self.infosets@[batch_key(
                player,
                public_node,
                hand,
            )],
    {
        self.infosets.get(make_batch_key(player, public_node, hand))
    }

    pub fn compiled_profile_cache_metrics(&self) -> (metrics: MultiwayCompiledProfileCacheMetrics)
        ensures
            metrics == cache_metrics(self.profile_cache),
    {
        match &self.profile_cache {
            Some(cache) => cache.metrics(),
            None => MultiwayCompiledProfileCacheMetrics::default(),
        }
    }

    pub fn metrics(&self) -> (metrics: MultiwayBatchSamplingMetrics)
        ensures
            metrics@ == with_cache(self.metrics@, cache_metrics(self.profile_cache)),
    {
        let cache = self.compiled_profile_cache_metrics();
        let mut metrics = self.metrics.clone();
        metrics.compiled_profile_cache_hits = cache.hits;
        metrics.compiled_profile_cache_misses = cache.misses;
        metrics.compiled_profile_cache_evictions = cache.evictions;
        assert(metrics@ =~= with_cache(self.metrics@, cache));
        metrics
    }

    /// What a checkpoint of the solver holds.
    pub open spec fn written(self, checkpoint: MultiwayHoldemBatchCheckpoint) -> bool {
        &&& checkpoint.format_version == MULTIWAY_BATCH_CHECKPOINT_FORMAT_VERSION
        &&& checkpoint.player_count == self.players()
        &&& checkpoint.tree_fingerprint == self.public_arena.tree_fingerprint
        &&& checkpoint.range_fingerprint == self.private_sampler.range_fingerprint
        &&& checkpoint.dead_cards == self.private_sampler.dead_cards
        &&& checkpoint.config_fingerprint == self.config_fingerprint
        &&& checkpoint.max_private_attempts == self.max_private_attempts
        &&& checkpoint.profile_cache_capacity == cache_capacity(self.profile_cache)
        &&& checkpoint.iterations == self.iterations
        &&& batch_views(checkpoint.infosets@) == entry_views(self.infosets.entries@)
        &&& forall|i: int|
            0 <= i < checkpoint.infosets@.len() ==> (#[trigger] checkpoint.infosets@[i]).action_count
                == checkpoint.infosets@[i].regret_sum@.len()
        &&& checkpoint.traversal_rng_state == self.traversal_rng.state
        &&& checkpoint.private_rng_state == self.private_sampler.rng.state
        &&& checkpoint.private_sampling_attempts == self.private_sampler.total_attempts
        &&& checkpoint.metrics@ == with_cache(self.metrics@, cache_metrics(self.profile_cache))
    }

    pub fn checkpoint(&self) -> (checkpoint: MultiwayHoldemBatchCheckpoint)
        requires
            self.wf(),
        ensures
            self.written(checkpoint),
    {
        MultiwayHoldemBatchCheckpoint {
            format_version: MULTIWAY_BATCH_CHECKPOINT_FORMAT_VERSION,
            player_count: self.public_arena.player_count(),
            tree_fingerprint: self.public_arena.tree_fingerprint(),
            range_fingerprint: self.private_sampler.range_fingerprint(),
            dead_cards: self.private_sampler.dead_cards(),
            config_fingerprint: self.config_fingerprint,
            max_private_attempts: self.max_private_attempts,
            profile_cache_capacity: match &self.profile_cache {
                Some(cache) => cache.capacity,
                None => 0,
            },
            iterations: self.iterations,
            infosets: batch_checkpoint_entries(&self.infosets),
            traversal_rng_state: self.traversal_rng.state,
            private_rng_state: self.private_sampler.rng_state(),
            private_sampling_attempts: self.private_sampler.total_attempts(),
            metrics: self.metrics(),
        }
    }

    /// The solver has the state of a checkpoint.
    pub open spec fn resumes(
        self,
        checkpoint: MultiwayHoldemBatchCheckpoint,
        tree: GameTree,
        candidates: Seq<Vec<Candidate>>,
        thresholds: Seq<Vec<u64>>,
        dead_cards: u64,
        config_fingerprint: u64,
        max_private_attempts: usize,
    ) -> bool {
        &&& self.sound()
        &&& self.public_arena.tree == tree
        &&& self.config_fingerprint == config_fingerprint
        &&& self.max_private_attempts == max_private_attempts
        &&& self.private_sampler.candidates@ == candidates
        &&& self.private_sampler.thresholds@ == thresholds
        &&& self.private_sampler.dead_cards == dead_cards
        &&& self.private_sampler.rng.state == checkpoint.private_rng_state
        &&& self.private_sampler.total_attempts == checkpoint.private_sampling_attempts
        &&& self.traversal_rng.state == checkpoint.traversal_rng_state
        &&& cache_capacity(self.profile_cache) == checkpoint.profile_cache_capacity
        &&& table_view(self.infosets) == restored(batch_views(checkpoint.infosets@))
        &&& self.iterations == checkpoint.iterations
        &&& self.metrics@ == filled_metrics(checkpoint.metrics@, self.players())
    }

    /// Continues where a checkpoint left off.
    pub fn from_checkpoint(
        tree: GameTree,
        facts: &[NodeFacts],
        candidates: Vec<Vec<Candidate>>,
        thresholds: Vec<Vec<u64>>,
        dead_cards: DeckMask,
        checkpoint: &MultiwayHoldemBatchCheckpoint,
        config_fingerprint: u64,
        max_private_attempts: usize,
    ) -> (result: Result<Self, BatchError>)
        requires
            facts@.len() == tree.nodes@.len(),
            candidates_valid(candidates@),
            thresholds_fit(candidates@, thresholds@),
        ensures
            match batch_resume_error(
                *checkpoint,
                tree,
                facts@,
                candidates@,
                dead_cards,
                config_fingerprint,
                max_private_attempts,
            ) {
                Some(error) => result == Err::<Self, BatchError>(error),
                None => result matches Ok(solver) && solver.resumes(
                    *checkpoint,
                    tree,
                    candidates@,
                    thresholds@,
                    dead_cards,
                    config_fingerprint,
                    max_private_attempts,
                ),
            },
    {
        match checkpoint.validate() {
            Ok(_) => {},
            Err(error) => {
                return Err(BatchError::Checkpoint(error));
            },
        }
        let mut solver = match Self::new_with_profile_cache_capacity(
            tree,
            facts,
            candidates,
            thresholds,
            dead_cards,
            1,
            config_fingerprint,
            max_private_attempts,
            checkpoint.profile_cache_capacity,
        ) {
            Ok(solver) => solver,
            Err(error) => {
                return Err(error);
            },
        };
        if checkpoint.player_count != solver.public_arena.player_count()
            || checkpoint.tree_fingerprint != solver.public_arena.tree_fingerprint()
            || checkpoint.config_fingerprint != config_fingerprint || checkpoint.dead_cards
            != dead_cards || checkpoint.max_private_attempts != max_private_attempts
            || checkpoint.range_fingerprint != solver.private_sampler.range_fingerprint() {
            return Err(BatchError::ContextMismatch);
        }
        let infosets = match restore_batch_entries(&checkpoint.infosets) {
            Ok(infosets) => infosets,
            Err(entry) => {
                return Err(BatchError::InvalidHand { entry });
            },
        };
        solver.private_sampler.rng = XorShift64 { state: checkpoint.private_rng_state };
        solver.private_sampler.total_attempts = checkpoint.private_sampling_attempts;
        solver.traversal_rng = XorShift64 { state: checkpoint.traversal_rng_state };
        solver.iterations = checkpoint.iterations;
        let mut metrics = checkpoint.metrics.clone();
        match metrics.initialize_player_dimensions(checkpoint.player_count) {
            Ok(_) => {},
            Err(error) => {
                return Err(BatchError::Metrics(error));
            },
        }
        solver.metrics = metrics;
        proof {
            lemma_restored_data_ok(checkpoint.infosets@, checkpoint.player_count, infosets);
        }
        solver.infosets = infosets;
        Ok(solver)
    }

    /// The counters leave room for one more update, with the attempts that its deal
    /// will take.
    pub open spec fn has_room(self, traverser: usize) -> bool {
        let limit = self.max_private_attempts;
        &&& self.private_sampler.can_count(None, limit)
        &&& self.private_sampler.outcome(None, limit) is Some ==> self.counts_deal(
            traverser,
            self.private_sampler.attempts_made(None, limit),
        )
    }

    /// The metrics leave room for a deal that took `made` attempts.
    pub open spec fn counts_deal(self, traverser: usize, made: int) -> bool {
        let t = traverser as int;
        &&& self.metrics.traverser_updates < u64::MAX
        &&& self.metrics.traverser_updates_by_player@[t] < u64::MAX
        &&& self.metrics.sampled_private_deals < u64::MAX
        &&& self.metrics.sampled_private_deals_by_player@[t] < u64::MAX
        &&& self.metrics.private_sampling_attempts + made <= u64::MAX
        &&& self.metrics.private_sampling_attempts_by_player@[t] + made <= u64::MAX
    }

    fn can_count_deal(&self, traverser: usize, made: u64) -> (yes: bool)
        requires
            self.wf(),
            traverser < self.players(),
        ensures
            yes == self.counts_deal(traverser, made as int),
    {
        let room = u64::MAX - made;
        self.metrics.traverser_updates < u64::MAX
            && self.metrics.traverser_updates_by_player[traverser] < u64::MAX
            && self.metrics.sampled_private_deals < u64::MAX
            && self.metrics.sampled_private_deals_by_player[traverser] < u64::MAX
            && self.metrics.private_sampling_attempts <= room
            && self.metrics.private_sampling_attempts_by_player[traverser] <= room
    }

    /// Can one more update be counted?
    pub fn can_update(&self, traverser: usize) -> (yes: bool)
        requires
            self.wf(),
            traverser < self.players(),
        ensures
            yes == self.has_room(traverser),
    {
        let limit = self.max_private_attempts;
        proof {
            self.private_sampler.lemma_attempts_within(None, limit);
        }
        if self.private_sampler.total_attempts() <= u64::MAX - limit as u64
            && self.can_count_deal(traverser, limit as u64) {
            return true;
        }
        match self.private_sampler.count_attempts(None, limit) {
            Some(made) => self.private_sampler.total_attempts() <= u64::MAX - made
                && self.can_count_deal(traverser, made),
            None => self.private_sampler.total_attempts() <= u64::MAX - limit as u64,
        }
    }

    /// What drawing the deal of an update does.
    pub open spec fn updated(
        self,
        after: Self,
        traverser: usize,
        result: Result<Vec<Combo>, BatchError>,
    ) -> bool {
        &&& after.wf()
        &&& after.public_arena == self.public_arena
        &&& after.config_fingerprint == self.config_fingerprint
        &&& after.max_private_attempts == self.max_private_attempts
        &&& after.traversal_rng == self.traversal_rng
        &&& after.profile_cache == self.profile_cache
        &&& after.infosets == self.infosets
        &&& after.iterations == self.iterations
        &&& after.private_sampler.kept(self.private_sampler)
        &&& match result {
            Ok(hands) => {
                &&& exists|attempts: u64|
                    sampled_hands(self, after, hands@, attempts)
                        && after.metrics@ == #[trigger] deal_counted(
                        self.metrics@,
                        traverser,
                        attempts,
                    )
                &&& hands@.len() == self.players()
                &&& all_valid(hands@)
                &&& multiway_hands_error(hands@) is None
            },
            Err(error) => {
                &&& error == BatchError::Sampler(
                    SamplerError::AttemptsExhausted { limit: self.max_private_attempts },
                )
                &&& sampled(
                    self.private_sampler,
                    after.private_sampler,
                    None,
                    self.max_private_attempts,
                    None,
                )
                &&& after.metrics == self.metrics
            },
        }
    }

    /// Draws the deal of one update and counts it.
    pub fn begin_update(&mut self, traverser: usize) -> (result: Result<Vec<Combo>, BatchError>)
        requires
            old(self).wf(),
            traverser < old(self).players(),
            old(self).has_room(traverser),
        ensures
            old(self).updated(*final(self), traverser, result),
    {
        let ghost before = *self;
        let sample = match self.private_sampler.sample(self.max_private_attempts) {
            Ok(sample) => sample,
            Err(error) => {
                return Err(BatchError::Sampler(error));
            },
        };
        proof {
            lemma_sampled_deals_are_legal(
                before.private_sampler.candidates@,
                before.private_sampler.thresholds@,
                None,
                before.private_sampler.dead_cards,
                before.private_sampler.rng.state,
                1,
                before.max_private_attempts as int,
            );
            lemma_dealt_hands(
                before.private_sampler.candidates@,
                before.private_sampler.dead_cards,
                sample.hands@,
            );
        }
        self.metrics.count_deal(traverser, sample.attempts);
        assert(sampled_hands(before, *self, sample.hands@, sample.attempts));
        Ok(sample.hands)
    }

    /// The profile of a deal of valid hands.
    pub fn profile(&self, hands: Vec<Combo>) -> (result: Result<
        MultiwayHoldemPublicProfile,
        BatchError,
    >)
        requires
            self.wf(),
            all_valid(hands@),
        ensures
            if hands@.len() != self.players() {
                result == Err::<MultiwayHoldemPublicProfile, BatchError>(
                    BatchError::Arena(
                        ArenaError::HandCount {
                            hands: hands@.len() as usize,
                            expected: self.players(),
                        },
                    ),
                )
            } else {
                match multiway_hands_error(hands@) {
                    Some(error) => result == Err::<MultiwayHoldemPublicProfile, BatchError>(
                        BatchError::Arena(ArenaError::Payoff(error)),
                    ),
                    None => result matches Ok(profile) && profile.wf() && profile.hands@ == hands@,
                }
            },
    {
        match self.public_arena.profile(hands) {
            Ok(profile) => Ok(profile),
            Err(error) => Err(BatchError::Arena(error)),
        }
    }

    /// Enters the next node of an external-sampling walk: a chance node and a
    /// decision of another player are sampled by the thresholds, a decision of
    /// the traverser is tried in every way.
    pub fn visit(
        &mut self,
        walk: &mut Walk,
        stage: &Stage,
        traverser: usize,
        thresholds: &[u64],
    ) -> (result: Result<Plan, BatchError>)
        requires
            old(self).wf(),
            old(walk).wf(),
            old(walk).step() is Enter,
            stage.wf(),
            stage.thresholds_match(
                old(self).public_arena.tree,
                old(walk).step()->Enter_0,
                traverser,
                thresholds@,
            ),
            old(self).metrics.sampled_chance_nodes < u64::MAX,
            old(self).metrics.sampled_opponent_actions < u64::MAX,
        ensures
            final(self).wf(),
            final(self).public_arena == old(self).public_arena,
            final(self).config_fingerprint == old(self).config_fingerprint,
            final(self).max_private_attempts == old(self).max_private_attempts,
            final(self).private_sampler == old(self).private_sampler,
            final(self).profile_cache == old(self).profile_cache,
            final(self).infosets == old(self).infosets,
            final(self).iterations == old(self).iterations,
            final(walk).wf(),
            ({
                let node = old(walk).step()->Enter_0;
                match stage.error(old(self).public_arena.tree, node) {
                    Some(error) => {
                        &&& result == Err::<Plan, BatchError>(error)
                        &&& *final(self) == *old(self)
                        &&& *final(walk) == *old(walk)
                    },
                    None => {
                        &&& result is Ok
                        &&& exists|shape: Shape| #[trigger]
                            stage.has_shape(old(self).public_arena.tree, node, shape) && {
                                let plan = result->Ok_0;
                                let drawn = samples(shape, traverser);
                                let next = xorshift(old(self).traversal_rng.state);
                                &&& plan == sampled_plan(
                                    shape,
                                    traverser,
                                    thresholds@,
                                    draw_of(next),
                                )
                                &&& final(self).traversal_rng.state == if drawn {
                                    next
                                } else {
                                    old(self).traversal_rng.state
                                }
                                &&& final(self).metrics@ == old(self).metrics@.walked(drawn, shape)
                                &&& final(walk).events@ == old(walk).events@.push(
                                    WalkEvent::Enter(node, planned(shape_targets(shape), plan)),
                                )
                            }
                    },
                }
            }),
    {
        let node = match walk.next_step() {
            WalkStep::Enter(node) => node,
            _ => {
                return Ok(Plan::Nowhere);
            },
        };
        let shape = match stage.shape(&self.public_arena.tree, node) {
            Ok(shape) => shape,
            Err(error) => {
                return Err(error);
            },
        };
        let ghost before = self.metrics@;
        let mut counters = WalkCounters {
            sampled_chance_nodes: self.metrics.sampled_chance_nodes,
            sampled_opponent_actions: self.metrics.sampled_opponent_actions,
        };
        proof {
            assert(stage.has_shape(self.public_arena.tree, node, shape));
            lemma_state_never_zero(self.traversal_rng.state);
        }
        let plan = plan_sampled(
            &shape,
            traverser,
            thresholds,
            &mut self.traversal_rng,
            &mut counters,
        );
        self.metrics.sampled_chance_nodes = counters.sampled_chance_nodes;
        self.metrics.sampled_opponent_actions = counters.sampled_opponent_actions;
        walk.enter(&shape, plan);
        assert(self.metrics@ =~= before.walked(samples(shape, traverser), shape));
        Ok(plan)
    }

    /// Opens the information set of a decision.
    pub fn open(&mut self, point: DecisionPoint) -> (result: Result<usize, BatchError>)
        requires
            old(self).wf(),
            point.hand.valid(),
        ensures
            final(self).wf(),
            final(self).public_arena == old(self).public_arena,
            final(self).config_fingerprint == old(self).config_fingerprint,
            final(self).max_private_attempts == old(self).max_private_attempts,
            final(self).private_sampler == old(self).private_sampler,
            final(self).traversal_rng == old(self).traversal_rng,
            final(self).profile_cache == old(self).profile_cache,
            final(self).iterations == old(self).iterations,
            final(self).metrics == old(self).metrics,
            point_opened(old(self).infosets, final(self).infosets, point, result),
            old(self).sound() && point.player < old(self).players() && point.actions > 0
                ==> final(self).sound(),
    {
        let ghost before = self.infosets;
        let key = make_batch_key(point.player, point.public_node, point.hand);
        match open_entry(&mut self.infosets, key, point.actions) {
            Ok(index) => {
                proof {
                    lemma_entry(self.infosets, index as int);
                    if batch_data_ok(before, self.players()) && point.player < self.players()
                        && point.actions > 0 && !before@.dom().contains(key) {
                        lemma_data_ok_after(before, self.infosets, key, self.players());
                    }
                }
                Ok(index)
            },
            Err(_) => Err(
                BatchError::ActionCountChange { player: point.player, node: point.public_node },
            ),
        }
    }

    /// Records new sums for the information set of a decision of the traverser,
    /// and counts the visit.
    pub(crate) fn record(&mut self, point: DecisionPoint, regrets: &Vec<u64>, strategies: &Vec<u64>) -> (result:
        Result<(), BatchError>)
        requires
            old(self).wf(),
            point.hand.valid(),
            point.player < old(self).players(),
            regrets@.len() == strategies@.len(),
            regrets@.len() == point.actions,
            known_data(old(self).infosets, point.key(), 0).visits < u64::MAX,
            old(self).metrics.infoset_visits < u64::MAX,
            old(self).metrics.infoset_visits_by_player@[point.player as int] < u64::MAX,
        ensures
            final(self).wf(),
            final(self).public_arena == old(self).public_arena,
            final(self).config_fingerprint == old(self).config_fingerprint,
            final(self).max_private_attempts == old(self).max_private_attempts,
            final(self).private_sampler == old(self).private_sampler,
            final(self).traversal_rng == old(self).traversal_rng,
            final(self).profile_cache == old(self).profile_cache,
            final(self).iterations == old(self).iterations,
            ({
                let key = point.key();
                let data = known_data(old(self).infosets, key, point.actions);
                if data.regret_sum.len() != point.actions {
                    &&& result == Err::<(), BatchError>(
                        BatchError::ActionCountChange {
                            player: point.player,
                            node: point.public_node,
                        },
                    )
                    &&& final(self).infosets == old(self).infosets
                    &&& final(self).metrics == old(self).metrics
                } else {
                    &&& result is Ok
                    &&& final(self).infosets@.dom().contains(key)
                    &&& final(self).infosets@[key]@ == visited(data, regrets@, strategies@)
                    &&& final(self).infosets@ == old(self).infosets@.insert(
                        key,
                        final(self).infosets@[key],
                    )
                    &&& final(self).metrics@ == visit_counted(old(self).metrics@, point.player)
                }
            }),
            old(self).sound() && point.actions > 0 && all_finite(regrets@) && all_usable(strategies@)
                ==> final(self).sound(),
    {
        let ghost before = self.infosets;
        let key = make_batch_key(point.player, point.public_node, point.hand);
        match record_entry(&mut self.infosets, key, regrets, strategies) {
            Ok(_) => {
                proof {
                    if batch_data_ok(before, self.players()) && point.actions > 0 && all_finite(
                        regrets@,
                    ) && all_usable(strategies@) {
                        lemma_floored_usable(regrets@);
                        lemma_data_ok_after(before, self.infosets, key, self.players());
                    }
                }
            },
            Err(_) => {
                return Err(
                    BatchError::ActionCountChange { player: point.player, node: point.public_node },
                );
            },
        }
        self.metrics.count_visits(point.player, 1);
        Ok(())
    }

    /// Counts a finished iteration.
    pub fn finish_iteration(&mut self)
        requires
            old(self).wf(),
            old(self).iterations < u64::MAX,
        ensures
            final(self).wf(),
            *final(self) == (MultiwayHoldemBatchSolver {
                iterations: (old(self).iterations + 1) as u64,
                ..*old(self)
            }),
    {
        self.iterations = self.iterations + 1;
    }
}

/// The deal comes from the sampler.
pub open spec fn sampled_hands(
    before: MultiwayHoldemBatchSolver,
    after: MultiwayHoldemBatchSolver,
    hands: Seq<Combo>,
    attempts: u64,
) -> bool {
    let outcome = crate::sampler::attempts(
        before.private_sampler.candidates@,
        before.private_sampler.thresholds@,
        None,
        before.private_sampler.dead_cards,
        before.private_sampler.rng.state,
        1,
        before.max_private_attempts as int,
    );
    &&& outcome.0 == Some((hands, attempts as int))
    &&& after.private_sampler.rng.state == outcome.1
    &&& after.private_sampler.total_attempts == before.private_sampler.total_attempts + attempts
}

/// Hands that a sampler deals are valid and share no card.
proof fn lemma_dealt_hands(candidates: Seq<Vec<Candidate>>, dead_cards: u64, hands: Seq<Combo>)
    requires
        3 <= candidates.len() <= 8,
        candidates_valid(candidates),
        hands.len() == candidates.len(),
        dealt_so_far(candidates, None, dead_cards, hands),
    ensures
        all_valid(hands),
        multiway_hands_error(hands) is None,
{
    assert forall|p: int| 0 <= p < hands.len() implies (#[trigger] hands[p]).valid() by {
        assert(is_candidate(candidates[p]@, hands[p]));
        let list = candidates[p]@;
        let i = choose|i: int| 0 <= i < list.len() && (#[trigger] list[i]).combo == hands[p];
        assert(candidates[p]@[i].combo.valid());
    }
}

/// A decision: who acts at which public node with which hand, and the number of
/// actions.
#[derive(Debug, Clone, Copy, PartialEq, Eq, Structural)]
pub struct DecisionPoint {
    pub player: usize,
    pub public_node: usize,
    pub hand: Combo,
    pub actions: usize,
}

impl DecisionPoint {
    pub open spec fn key(self) -> Key {
        batch_key(self.player, self.public_node, self.hand)
    }
}

/// What opening the information set of a decision does.
pub open spec fn point_opened(
    before: Table<InfoSetData>,
    after: Table<InfoSetData>,
    point: DecisionPoint,
    result: Result<usize, BatchError>,
) -> bool {
    let change = BatchError::ActionCountChange { player: point.player, node: point.public_node };
    match result {
        Ok(index) => entry_opened(before, after, point.key(), point.actions, Ok(index)),
        Err(error) => {
            &&& error == change
            &&& after == before
            &&& before@.dom().contains(point.key())
            &&& before@[point.key()].regret_sum@.len() != point.actions
        },
    }
}

pub open spec fn visit_counted(metrics: BatchMetricsView, player: usize) -> BatchMetricsView {
    BatchMetricsView {
        infoset_visits: (metrics.infoset_visits + 1) as u64,
        infoset_visits_by_player: metrics.infoset_visits_by_player.update(
            player as int,
            (metrics.infoset_visits_by_player[player as int] + 1) as u64,
        ),
        ..metrics
    }
}

/// Why no player acts at a public node.
pub open spec fn decision_error(tree: GameTree, hands: Seq<Combo>, node: usize) -> Option<
    BatchError,
> {
    match public_error(tree, hands, node) {
        Some(error) => Some(BatchError::Arena(error)),
        None => if tree.nodes@[node as int].leaf is Some || tree.nodes@[node as int].chance is Some {
            Some(BatchError::NotADecision { node })
        } else {
            None
        },
    }
}

/// The decision at a public node, for the hands of a profile.
pub fn public_decision(tree: &GameTree, profile: &MultiwayHoldemPublicProfile, node: usize) -> (result:
    Result<DecisionPoint, BatchError>)
    requires
        tree_in_order(*tree),
        profile.wf(),
    ensures
        match decision_error(*tree, profile.hands@, node) {
            Some(error) => result == Err::<DecisionPoint, BatchError>(error),
            None => {
                let found = tree.nodes@[node as int];
                &&& node < tree.nodes@.len()
                &&& result matches Ok(point)
                &&& found.state.actor == Some(point.player)
                &&& point.player < profile.hands@.len()
                &&& point.public_node == node
                &&& point.hand == profile.hands@[point.player as int]
                &&& point.hand.valid()
                &&& point.actions == found.children@.len()
            },
        },
{
    match profile.shape(tree, node) {
        Err(error) => Err(BatchError::Arena(error)),
        Ok(shape) => match shape {
            Shape::Decision(player, targets) => {
                assert(profile.hands@[player as int].valid());
                Ok(
                    DecisionPoint {
                        player,
                        public_node: node,
                        hand: profile.hands[player],
                        actions: targets.len(),
                    },
                )
            },
            _ => Err(BatchError::NotADecision { node }),
        },
    }
}

/// What a node of a compiled deal decides, or why it decides nothing.
pub open spec fn compiled_point(compiled: MultiwayCompiledHoldemGame, node: usize) -> Result<
    DecisionPoint,
    BatchError,
> {
    if node >= compiled.game.nodes@.len() {
        Err(BatchError::Arena(ArenaError::UnknownNode { node }))
    } else {
        match compiled.game.nodes@[node as int] {
            MultiwayGameNode::Decision { player, infoset, children } => if node
                < compiled.tree_node_ids@.len() && compiled.tree_node_ids@[node as int] is Some
                && node < compiled.private_hands@.len() && compiled.private_hands@[node as int] is Some {
                let hands = compiled.private_hands@[node as int]->Some_0@;
                if player >= hands.len() {
                    Err(BatchError::Arena(ArenaError::PlayerOutside { node, player }))
                } else {
                    Ok(
                        DecisionPoint {
                            player,
                            public_node: compiled.tree_node_ids@[node as int]->Some_0,
                            hand: hands[player as int],
                            actions: children@.len() as usize,
                        },
                    )
                }
            } else {
                Err(BatchError::NoMetadata { node })
            },
            _ => Err(BatchError::NotADecision { node }),
        }
    }
}

/// The decision at a node of a compiled deal, by its public node.
pub fn compiled_decision(compiled: &MultiwayCompiledHoldemGame, node: usize) -> (result: Result<
    DecisionPoint,
    BatchError,
>)
    ensures
        result == compiled_point(*compiled, node),
{
    match compiled.game().node(node) {
        None => Err(BatchError::Arena(ArenaError::UnknownNode { node })),
        Some(MultiwayGameNode::Decision { player, infoset, children }) => {
            let public_node = match compiled.tree_node_id(node) {
                Some(id) => id,
                None => {
                    return Err(BatchError::NoMetadata { node });
                },
            };
            let hands = match compiled.private_hands_at(node) {
                Some(hands) => hands,
                None => {
                    return Err(BatchError::NoMetadata { node });
                },
            };
            if *player >= hands.len() {
                return Err(BatchError::Arena(ArenaError::PlayerOutside { node, player: *player }));
            }
            Ok(
                DecisionPoint {
                    player: *player,
                    public_node,
                    hand: hands[*player],
                    actions: children.len(),
                },
            )
        },
        Some(_) => Err(BatchError::NotADecision { node }),
    }
}

/// A checkpoint of a batch solver can be resumed, and the resumed solver stands
/// where the first one stopped and draws on from the same states.
pub proof fn lemma_batch_resumes_where_it_stopped(
    solver: MultiwayHoldemBatchSolver,
    checkpoint: MultiwayHoldemBatchCheckpoint,
    resumed: MultiwayHoldemBatchSolver,
    facts: Seq<NodeFacts>,
)
    requires
        solver.sound(),
        solver.written(checkpoint),
        tree_error(solver.public_arena.tree, facts) is None,
    ensures
        batch_resume_error(
            checkpoint,
            solver.public_arena.tree,
            facts,
            solver.private_sampler.candidates@,
            solver.private_sampler.dead_cards,
            solver.config_fingerprint,
            solver.max_private_attempts,
        ) is None,
        resumed.resumes(
            checkpoint,
            solver.public_arena.tree,
            solver.private_sampler.candidates@,
            solver.private_sampler.thresholds@,
            solver.private_sampler.dead_cards,
            solver.config_fingerprint,
            solver.max_private_attempts,
        ) ==> {
            &&& table_view(resumed.infosets) == table_view(solver.infosets)
            &&& resumed.iterations == solver.iterations
            &&& resumed.traversal_rng == solver.traversal_rng
            &&& resumed.private_sampler.rng == solver.private_sampler.rng
            &&& resumed.private_sampler.total_attempts == solver.private_sampler.total_attempts
            &&& cache_capacity(resumed.profile_cache) == cache_capacity(solver.profile_cache)
            &&& resumed.metrics@ == with_cache(solver.metrics@, cache_metrics(solver.profile_cache))
        },
{
    lemma_batch_entries_accepted(solver.infosets, checkpoint.infosets@, solver.players());
    lemma_batch_entries_round_trip(solver.infosets, checkpoint.infosets@);
}

} // verus!
