//! Repository operations with explicit planning and execution seams: manifest
//! validation, dependency planning, environment contracts, scheduling,
//! process supervision decisions and report rendering, each with its contract.

pub mod arguments;
pub mod cache;
pub mod compose;
pub mod config;
pub mod environment;
pub mod execution;
pub mod generation;
pub mod json;
pub mod keymap;
pub mod model;
pub mod paths;
pub mod planning;
pub mod process;
pub mod reporting;
pub mod text;
pub mod tools;
