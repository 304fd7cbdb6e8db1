//! Parallel execution of `just` recipes.

pub mod cli;
pub mod dependency;
pub mod digraph;
pub mod edges;
pub mod executor;
pub mod flattening;
pub mod graph;
pub mod justfile;
pub mod name_map;
pub mod namepath;
pub mod output;
pub mod progress;
pub mod reading;
pub mod resolution;
pub mod resolve;
pub mod schedule;
pub mod sequences;
pub mod source;
pub mod text;
pub mod ui;
