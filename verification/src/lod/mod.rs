//! Level-of-detail choices for mesh simplification.

pub mod lod_manager;
pub mod simplification;

pub use lod_manager::{lod_level_for_bands, lod_level_with_state, DistanceBands, LodLevel};
pub use simplification::SimplificationStrategy;
