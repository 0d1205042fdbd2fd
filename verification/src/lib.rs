//! Work-shift scheduling: calendar arithmetic, the labour rules, a bounded
//! backtracking solver, a constraint evaluator and schedule export.

pub mod calendar;
pub mod commands;
pub mod delegated;
pub mod engine;
pub mod evaluator;
pub mod export;
pub mod laws;
pub mod models;
pub mod problem;
pub mod ranking;
pub mod report;
pub mod roster;
pub mod rules;
pub mod text;
