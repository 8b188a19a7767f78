//! The pluggable predictor interface. The rule-based scoring itself is an
//! external collaborator; the library only fixes the shape of the decision
//! call and ships the conservative default.

use vstd::prelude::*;
use crate::types::{DeveloperBehavior, PackageUsageMetrics, ProjectMetadata};

verus! {

/// A predictor consulted before eviction. Implementations live outside the
/// verified core; nothing is assumed of their answers.
pub trait MlRecommender {
    /// A quick verdict for a package id alone, when the recommender has
    /// one.
    fn is_safe_to_evict(&self, package_id: &str) -> Option<bool>;

    /// Whether the package is likely needed and should be kept.
    fn should_keep(
        &self,
        package_id: &str,
        metrics: &PackageUsageMetrics,
        project: &ProjectMetadata,
        behavior: &DeveloperBehavior,
    ) -> bool;
}

/// The conservative default: no verdict, keep everything.
pub struct NoopRecommender;

impl MlRecommender for NoopRecommender {
    fn is_safe_to_evict(&self, package_id: &str) -> Option<bool> {
        None
    }

    fn should_keep(
        &self,
        package_id: &str,
        metrics: &PackageUsageMetrics,
        project: &ProjectMetadata,
        behavior: &DeveloperBehavior,
    ) -> bool {
        true
    }
}

/// Holder of the prediction window that a scoring predictor works with.
pub struct PredictiveOptimizer {
    prediction_window_days: i64,
}

impl PredictiveOptimizer {
    /// The configured window, in days.
    pub closed spec fn window_days(&self) -> i64 {
        self.prediction_window_days
    }

    pub fn new(prediction_window_days: i64) -> (r: Self)
        ensures
            r.window_days() == prediction_window_days,
    {
        PredictiveOptimizer { prediction_window_days }
    }
}

} // verus!
