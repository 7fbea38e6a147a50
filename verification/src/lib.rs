//! Hybrid priority-laxity scheduling of aperiodic ADAS tasks on a
//! multi-core processor, with all times, distances and coefficients held
//! in fixed point (see `task::FIXED_ONE`).

pub mod task;
pub mod text;
pub mod ranking;
pub mod simulator;
pub mod sampling;
pub mod generator;
pub mod experiment;
pub mod cli;
pub mod scheduler;
pub mod machine;
