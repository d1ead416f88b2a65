//! A personal time tracker's core: the store model, tag parsing, the agent
//! layer's phase marks, the audit that reconciles activity against them, and
//! the rollups a report prints. Every function here is pure over plain values;
//! the binary around it reads the files, the clock and the environment.

pub mod text;
pub mod paths;
pub mod clock;
pub mod duration;
pub mod marks;
pub mod entry_data;
pub mod tracker;
pub mod dismissed;
pub mod audit;
pub mod agent;
pub mod report;
pub mod cli;
pub mod completions;
pub mod tui;
