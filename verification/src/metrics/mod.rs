//! Evaluation of recognition results: matching detected conflicts against
//! ground truth, and the intersection-over-union evaluator.

pub mod evaluator;
pub mod iou;

pub use evaluator::{conflict_confusion_matrix, ConflictDetection};
pub use iou::IouEvaluator;
