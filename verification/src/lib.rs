//! Verified core of a no-limit hold'em solver: betting trees, static games,
//! card enumeration, sampling, checkpoints and batch jobs.
//!
//! Probabilities, utilities and regrets enter as IEEE-754 bit patterns. What
//! is decided about them (finite, positive, negative) is decided on the bits;
//! sums and products are made by the caller.
pub mod hash;
pub mod rng;
pub mod bits;
pub mod text;
pub mod cards;
pub mod deals;
pub mod domain;
pub mod tree;
pub mod chance;
pub mod action_abstraction;
pub mod tree_builder;
pub mod tree_fingerprint;
pub mod stage;
pub mod sums;
pub mod table;
pub mod game;
pub mod checkpoint;
pub mod reference_games;
pub mod reach;
pub mod merged_again;
pub mod merged_totals;
pub mod messages;
pub mod multiway;
pub mod payoff;
pub mod compile;
pub mod holdem;
pub mod heads_up;
pub mod group;
pub mod ranges;
pub mod runs;
pub mod run_messages;
pub mod sampler;
pub mod sampling;
pub mod visits;
pub mod walk;
pub mod solver;
pub mod multiway_runs;
pub mod multiway_walk;
pub mod batch_metrics;
pub mod profile_cache;
pub mod batch_store;
pub mod arena;
pub mod batch;
pub mod parallel;
pub mod reduction;
pub mod schedule;
pub mod csv;
pub mod laws;
pub mod learning;
pub mod matrix;
pub mod matrix_csv;
pub mod report;
pub mod range_report;
pub mod batch_report;
pub mod job_files;
pub mod job;
pub mod card_abstraction;
pub mod card_rebuild;
pub mod blocking;
pub mod spot;
pub mod spot_history;
pub mod spot_report;
pub mod spot_job;
pub mod drill;
