//! What the operations of the library are for, stated over what goes in and what
//! comes out.
pub mod abstraction;
pub mod batches;
pub mod board;
pub mod chips;
pub mod compiled;
pub mod configs;
pub mod draws;
pub mod errors;
pub mod exports;
pub mod jobs;
pub mod learning;
pub mod order;
pub mod outcomes;
pub mod picks;
pub mod plain;
pub mod ranges;
pub mod readers;
pub mod reference;
pub mod reports;
pub mod runs;
pub mod sizing;
pub mod spot_jobs;
pub mod spots;
pub mod texts;
pub mod trees;
