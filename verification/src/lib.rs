//! Geometry-processing toolkit for CAD drawings: dependency tracking and
//! incremental updates, object pools and arenas, parser helpers, reasoning
//! data types and evaluation counters.

pub mod gpu;
pub mod incremental;
pub mod llm_reasoning;
pub mod lod;
pub mod memory;
pub mod metrics;
pub mod parser;
pub mod prompt_builder;
pub mod records;
pub mod seqs;
pub mod text;
