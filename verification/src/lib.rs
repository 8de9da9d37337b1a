//! Reachability questions over a corpus of loosely typed game-definition
//! records: prototype-style inheritance resolution, craftability graphs
//! built as monotone fixed points, and pruning of irrelevant graph nodes.

pub mod schema;
pub mod graphs;
pub mod closure;
pub mod seqs;
pub mod engine;
pub mod reachability;
pub mod prune;
pub mod records;
pub mod resolver;
pub mod db;
pub mod text;
pub mod table;
pub mod train;
pub mod loading;
pub mod plots;
pub mod labels;
pub mod units;
