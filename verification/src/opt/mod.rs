//! Optimization passes over IR modules, and the pipeline that runs them by
//! optimization level.
pub mod const_fold;
pub mod cse;
pub mod dce;
pub mod inline;
pub mod loop_opt;
pub mod pipeline;
pub mod stats;

pub use const_fold::ConstantFolder;
pub use cse::CommonSubexprElim;
pub use dce::DeadCodeEliminator;
pub use inline::{FunctionInliner, InlineConfig};
pub use loop_opt::{LoopAnalysis, LoopOptimizer};
pub use pipeline::{OptLevel, Optimizer};
pub use stats::OptStats;
