//! Verified core of a codebase explorer: a scan pipeline that batches
//! filesystem discoveries, a tree assembler that turns an unordered stream of
//! entries into a consistent arena-based tree, and a tri-state selection
//! engine over that tree.

pub mod engine;
pub mod model;
pub mod order;
pub mod cli;
pub mod config;
pub mod pathutil;
pub mod report;
pub mod relay;
pub mod selection;
pub mod state;
pub mod tokens;
pub mod stats;
pub mod tree;
