//! Intersection-over-union evaluation of detected rooms.

use vstd::prelude::*;

verus! {

/// Compares detected room outlines with ground truth by intersection over
/// union.
pub struct IouEvaluator;

impl IouEvaluator {
    /// An evaluator.
    pub fn new() -> (e: IouEvaluator) {
        IouEvaluator
    }
}

} // verus!
