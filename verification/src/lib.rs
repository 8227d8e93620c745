//! Per-space git working-tree status: parsing, summarising and surfacing.

pub mod cli;
pub mod collect;
pub mod config;
pub mod daemon;
pub mod git;
pub mod host;
pub mod model;
pub mod push;
pub mod render;
pub mod surfaced;
pub mod text;
