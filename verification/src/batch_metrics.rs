//! Counters of the batch solver.
use vstd::prelude::*;

use crate::checkpoint::{copy_words, zeros};
use crate::walk::Shape;

verus! {

pub const DEFAULT_PROFILE_CACHE_CAPACITY: usize = 128;

pub fn default_profile_cache_capacity() -> (capacity: usize)
    ensures
        capacity == DEFAULT_PROFILE_CACHE_CAPACITY,
{
    DEFAULT_PROFILE_CACHE_CAPACITY
}

#[derive(Debug, Clone, Copy, PartialEq, Eq, Structural)]
pub struct MultiwayCompiledProfileCacheMetrics {
    pub hits: u64,
    pub misses: u64,
    pub evictions: u64,
    pub entries: usize,
}

impl Default for MultiwayCompiledProfileCacheMetrics {
    fn default() -> (metrics: Self)
        ensures
            metrics == (MultiwayCompiledProfileCacheMetrics {
                hits: 0,
                misses: 0,
                evictions: 0,
                entries: 0,
            }),
    {
        MultiwayCompiledProfileCacheMetrics { hits: 0, misses: 0, evictions: 0, entries: 0 }
    }
}

#[derive(Debug)]
pub struct MultiwayBatchSamplingMetrics {
    pub traverser_updates: u64,
    pub sampled_private_deals: u64,
    pub private_sampling_attempts: u64,
    pub sampled_chance_nodes: u64,
    pub sampled_opponent_actions: u64,
    pub infoset_visits: u64,
    pub compiled_profile_cache_hits: u64,
    pub compiled_profile_cache_misses: u64,
    pub compiled_profile_cache_evictions: u64,
    /// Traverser updates by traverser. The lists by player may be empty in a
    /// checkpoint that was written without them.
    pub traverser_updates_by_player: Vec<u64>,
    /// Sampled deals and sampling attempts by the traverser that asked for them.
    pub sampled_private_deals_by_player: Vec<u64>,
    pub private_sampling_attempts_by_player: Vec<u64>,
    /// Visits of information sets by the player that acts.
    pub infoset_visits_by_player: Vec<u64>,
}

#[verifier::ext_equal]
pub struct BatchMetricsView {
    pub traverser_updates: u64,
    pub sampled_private_deals: u64,
    pub private_sampling_attempts: u64,
    pub sampled_chance_nodes: u64,
    pub sampled_opponent_actions: u64,
    pub infoset_visits: u64,
    pub compiled_profile_cache_hits: u64,
    pub compiled_profile_cache_misses: u64,
    pub compiled_profile_cache_evictions: u64,
    pub traverser_updates_by_player: Seq<u64>,
    pub sampled_private_deals_by_player: Seq<u64>,
    pub private_sampling_attempts_by_player: Seq<u64>,
    pub infoset_visits_by_player: Seq<u64>,
}

impl BatchMetricsView {
    /// The counters after a walk entered a node, where it drew or did not.
    pub open spec fn walked(self, drawn: bool, shape: Shape) -> BatchMetricsView {
        BatchMetricsView {
            sampled_chance_nodes: (self.sampled_chance_nodes + if drawn && shape is Chance {
                1int
            } else {
                0
            }) as u64,
            sampled_opponent_actions: (self.sampled_opponent_actions + if drawn
                && shape is Decision {
                1int
            } else {
                0
            }) as u64,
            ..self
        }
    }
}

impl View for MultiwayBatchSamplingMetrics {
    type V = BatchMetricsView;

    open spec fn view(&self) -> BatchMetricsView {
        BatchMetricsView {
            traverser_updates: self.traverser_updates,
            sampled_private_deals: self.sampled_private_deals,
            private_sampling_attempts: self.private_sampling_attempts,
            sampled_chance_nodes: self.sampled_chance_nodes,
            sampled_opponent_actions: self.sampled_opponent_actions,
            infoset_visits: self.infoset_visits,
            compiled_profile_cache_hits: self.compiled_profile_cache_hits,
            compiled_profile_cache_misses: self.compiled_profile_cache_misses,
            compiled_profile_cache_evictions: self.compiled_profile_cache_evictions,
            traverser_updates_by_player: self.traverser_updates_by_player@,
            sampled_private_deals_by_player: self.sampled_private_deals_by_player@,
            private_sampling_attempts_by_player: self.private_sampling_attempts_by_player@,
            infoset_visits_by_player: self.infoset_visits_by_player@,
        }
    }
}

impl Clone for MultiwayBatchSamplingMetrics {
    fn clone(&self) -> (copy: Self)
        ensures
            copy@ == self@,
    {
        let copy = MultiwayBatchSamplingMetrics {
            traverser_updates: self.traverser_updates,
            sampled_private_deals: self.sampled_private_deals,
            private_sampling_attempts: self.private_sampling_attempts,
            sampled_chance_nodes: self.sampled_chance_nodes,
            sampled_opponent_actions: self.sampled_opponent_actions,
            infoset_visits: self.infoset_visits,
            compiled_profile_cache_hits: self.compiled_profile_cache_hits,
            compiled_profile_cache_misses: self.compiled_profile_cache_misses,
            compiled_profile_cache_evictions: self.compiled_profile_cache_evictions,
            traverser_updates_by_player: copy_words(&self.traverser_updates_by_player),
            sampled_private_deals_by_player: copy_words(&self.sampled_private_deals_by_player),
            private_sampling_attempts_by_player: copy_words(
                &self.private_sampling_attempts_by_player,
            ),
            infoset_visits_by_player: copy_words(&self.infoset_visits_by_player),
        };
        assert(copy@ =~= self@);
        copy
    }
}

/// One of the lists by player.
#[derive(Debug, Clone, Copy, PartialEq, Eq, Structural)]
pub enum MetricsField {
    TraverserUpdates,
    SampledPrivateDeals,
    PrivateSamplingAttempts,
    InfosetVisits,
}

/// A list by player that is not of the table's size.
#[derive(Debug, Clone, Copy, PartialEq, Eq, Structural)]
pub struct MetricsError {
    pub field: MetricsField,
    pub players: usize,
    pub expected: usize,
}

/// No list, or one of the table's size.
pub open spec fn dimension_ok(values: Seq<u64>, player_count: usize) -> bool {
    values.len() == 0 || values.len() == player_count
}

pub open spec fn zero_list(count: usize) -> Seq<u64> {
    Seq::new(count as nat, |i: int| 0u64)
}

/// The list, or zeros where there is none.
pub open spec fn filled(values: Seq<u64>, player_count: usize) -> Seq<u64> {
    if values.len() == 0 {
        zero_list(player_count)
    } else {
        values
    }
}

pub open spec fn fresh_metrics(player_count: usize) -> BatchMetricsView {
    BatchMetricsView {
        traverser_updates: 0,
        sampled_private_deals: 0,
        private_sampling_attempts: 0,
        sampled_chance_nodes: 0,
        sampled_opponent_actions: 0,
        infoset_visits: 0,
        compiled_profile_cache_hits: 0,
        compiled_profile_cache_misses: 0,
        compiled_profile_cache_evictions: 0,
        traverser_updates_by_player: zero_list(player_count),
        sampled_private_deals_by_player: zero_list(player_count),
        private_sampling_attempts_by_player: zero_list(player_count),
        infoset_visits_by_player: zero_list(player_count),
    }
}

/// The first list by player that is not of the table's size.
pub open spec fn dimension_error(metrics: BatchMetricsView, player_count: usize) -> Option<
    MetricsError,
> {
    if !dimension_ok(metrics.traverser_updates_by_player, player_count) {
        Some(
            MetricsError {
                field: MetricsField::TraverserUpdates,
                players: metrics.traverser_updates_by_player.len() as usize,
                expected: player_count,
            },
        )
    } else if !dimension_ok(metrics.sampled_private_deals_by_player, player_count) {
        Some(
            MetricsError {
                field: MetricsField::SampledPrivateDeals,
                players: metrics.sampled_private_deals_by_player.len() as usize,
                expected: player_count,
            },
        )
    } else if !dimension_ok(metrics.private_sampling_attempts_by_player, player_count) {
        Some(
            MetricsError {
                field: MetricsField::PrivateSamplingAttempts,
                players: metrics.private_sampling_attempts_by_player.len() as usize,
                expected: player_count,
            },
        )
    } else if !dimension_ok(metrics.infoset_visits_by_player, player_count) {
        Some(
            MetricsError {
                field: MetricsField::InfosetVisits,
                players: metrics.infoset_visits_by_player.len() as usize,
                expected: player_count,
            },
        )
    } else {
        None
    }
}

/// The counters after a traverser drew a deal in `attempts` attempts.
pub open spec fn deal_counted(
    metrics: BatchMetricsView,
    traverser: usize,
    attempts: u64,
) -> BatchMetricsView {
    let t = traverser as int;
    BatchMetricsView {
        traverser_updates: (metrics.traverser_updates + 1) as u64,
        traverser_updates_by_player: metrics.traverser_updates_by_player.update(
            t,
            (metrics.traverser_updates_by_player[t] + 1) as u64,
        ),
        sampled_private_deals: (metrics.sampled_private_deals + 1) as u64,
        sampled_private_deals_by_player: metrics.sampled_private_deals_by_player.update(
            t,
            (metrics.sampled_private_deals_by_player[t] + 1) as u64,
        ),
        private_sampling_attempts: (metrics.private_sampling_attempts + attempts) as u64,
        private_sampling_attempts_by_player: metrics.private_sampling_attempts_by_player.update(
            t,
            (metrics.private_sampling_attempts_by_player[t] + attempts) as u64,
        ),
        ..metrics
    }
}

/// No counter of a deal would pass its limit.
pub open spec fn deal_countable(
    metrics: BatchMetricsView,
    traverser: usize,
    attempts: u64,
) -> bool {
    let t = traverser as int;
    &&& metrics.traverser_updates < u64::MAX
    &&& metrics.traverser_updates_by_player[t] < u64::MAX
    &&& metrics.sampled_private_deals < u64::MAX
    &&& metrics.sampled_private_deals_by_player[t] < u64::MAX
    &&& metrics.private_sampling_attempts + attempts <= u64::MAX
    &&& metrics.private_sampling_attempts_by_player[t] + attempts <= u64::MAX
}

impl MultiwayBatchSamplingMetrics {
    /// Each list by player has an entry for every player.
    pub open spec fn sized(self, player_count: usize) -> bool {
        &&& self.traverser_updates_by_player@.len() == player_count
        &&& self.sampled_private_deals_by_player@.len() == player_count
        &&& self.private_sampling_attempts_by_player@.len() == player_count
        &&& self.infoset_visits_by_player@.len() == player_count
    }

    pub fn for_player_count(player_count: usize) -> (metrics: Self)
        ensures
            metrics@ == fresh_metrics(player_count),
            metrics.sized(player_count),
    {
        let metrics = MultiwayBatchSamplingMetrics {
            traverser_updates: 0,
            sampled_private_deals: 0,
            private_sampling_attempts: 0,
            sampled_chance_nodes: 0,
            sampled_opponent_actions: 0,
            infoset_visits: 0,
            compiled_profile_cache_hits: 0,
            compiled_profile_cache_misses: 0,
            compiled_profile_cache_evictions: 0,
            traverser_updates_by_player: zeros(player_count),
            sampled_private_deals_by_player: zeros(player_count),
            private_sampling_attempts_by_player: zeros(player_count),
            infoset_visits_by_player: zeros(player_count),
        };
        assert(metrics@ =~= fresh_metrics(player_count));
        metrics
    }

    pub fn validate_player_dimensions(&self, player_count: usize) -> (result: Result<
        (),
        MetricsError,
    >)
        ensures
            match dimension_error(self@, player_count) {
                Some(error) => result == Err::<(), MetricsError>(error),
                None => result is Ok,
            },
    {
        if self.traverser_updates_by_player.len() != 0 && self.traverser_updates_by_player.len()
            != player_count {
            return Err(
                MetricsError {
                    field: MetricsField::TraverserUpdates,
                    players: self.traverser_updates_by_player.len(),
                    expected: player_count,
                },
            );
        }
        if self.sampled_private_deals_by_player.len() != 0
            && self.sampled_private_deals_by_player.len() != player_count {
            return Err(
                MetricsError {
                    field: MetricsField::SampledPrivateDeals,
                    players: self.sampled_private_deals_by_player.len(),
                    expected: player_count,
                },
            );
        }
        if self.private_sampling_attempts_by_player.len() != 0
            && self.private_sampling_attempts_by_player.len() != player_count {
            return Err(
                MetricsError {
                    field: MetricsField::PrivateSamplingAttempts,
                    players: self.private_sampling_attempts_by_player.len(),
                    expected: player_count,
                },
            );
        }
        if self.infoset_visits_by_player.len() != 0 && self.infoset_visits_by_player.len()
            != player_count {
            return Err(
                MetricsError {
                    field: MetricsField::InfosetVisits,
                    players: self.infoset_visits_by_player.len(),
                    expected: player_count,
                },
            );
        }
        Ok(())
    }

    /// Puts zeros where a list by player is missing.
    pub fn initialize_player_dimensions(&mut self, player_count: usize) -> (result: Result<
        (),
        MetricsError,
    >)
        ensures
            match dimension_error(old(self)@, player_count) {
                Some(error) => result == Err::<(), MetricsError>(error) && *final(self) == *old(self),
                None => {
                    &&& result is Ok
                    &&& final(self).sized(player_count)
                    &&& final(self)@ == (BatchMetricsView {
                        traverser_updates_by_player: filled(
                            old(self)@.traverser_updates_by_player,
                            player_count,
                        ),
                        sampled_private_deals_by_player: filled(
                            old(self)@.sampled_private_deals_by_player,
                            player_count,
                        ),
                        private_sampling_attempts_by_player: filled(
                            old(self)@.private_sampling_attempts_by_player,
                            player_count,
                        ),
                        infoset_visits_by_player: filled(
                            old(self)@.infoset_visits_by_player,
                            player_count,
                        ),
                        ..old(self)@
                    })
                },
            },
    {
        match self.validate_player_dimensions(player_count) {
            Ok(_) => {},
            Err(error) => {
                return Err(error);
            },
        }
        if self.traverser_updates_by_player.len() == 0 {
            self.traverser_updates_by_player = zeros(player_count);
        }
        if self.sampled_private_deals_by_player.len() == 0 {
            self.sampled_private_deals_by_player = zeros(player_count);
        }
        if self.private_sampling_attempts_by_player.len() == 0 {
            self.private_sampling_attempts_by_player = zeros(player_count);
        }
        if self.infoset_visits_by_player.len() == 0 {
            self.infoset_visits_by_player = zeros(player_count);
        }
        Ok(())
    }

    /// Counts the deal that a traverser drew.
    pub fn count_deal(&mut self, traverser: usize, attempts: u64)
        requires
            old(self).sized(old(self).traverser_updates_by_player@.len() as usize),
            traverser < old(self).traverser_updates_by_player@.len(),
            deal_countable(old(self)@, traverser, attempts),
        ensures
            final(self)@ == deal_counted(old(self)@, traverser, attempts),
            final(self).sized(old(self).traverser_updates_by_player@.len() as usize),
    {
        let ghost before = self@;
        self.traverser_updates = self.traverser_updates + 1;
        let updates = self.traverser_updates_by_player[traverser];
        self.traverser_updates_by_player[traverser] = updates + 1;
        self.sampled_private_deals = self.sampled_private_deals + 1;
        let deals = self.sampled_private_deals_by_player[traverser];
        self.sampled_private_deals_by_player[traverser] = deals + 1;
        self.private_sampling_attempts = self.private_sampling_attempts + attempts;
        let made = self.private_sampling_attempts_by_player[traverser];
        self.private_sampling_attempts_by_player[traverser] = made + attempts;
        assert(self@ =~= deal_counted(before, traverser, attempts));
    }

    /// Counts visits of the information sets of one player.
    pub fn count_visits(&mut self, player: usize, visits: u64)
        requires
            player < old(self).infoset_visits_by_player@.len(),
            old(self).infoset_visits + visits <= u64::MAX,
            old(self).infoset_visits_by_player@[player as int] + visits <= u64::MAX,
        ensures
            final(self)@ == (BatchMetricsView {
                infoset_visits: (old(self)@.infoset_visits + visits) as u64,
                infoset_visits_by_player: old(self)@.infoset_visits_by_player.update(
                    player as int,
                    (old(self)@.infoset_visits_by_player[player as int] + visits) as u64,
                ),
                ..old(self)@
            }),
    {
        let ghost before = self@;
        self.infoset_visits = self.infoset_visits + visits;
        let counted = self.infoset_visits_by_player[player];
        self.infoset_visits_by_player[player] = counted + visits;
        assert(self@ =~= (BatchMetricsView {
            infoset_visits: (before.infoset_visits + visits) as u64,
            infoset_visits_by_player: before.infoset_visits_by_player.update(
                player as int,
                (before.infoset_visits_by_player[player as int] + visits) as u64,
            ),
            ..before
        }));
    }
}

} // verus!
