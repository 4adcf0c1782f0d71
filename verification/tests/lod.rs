use cadagent::lod::{LodLevel, SimplificationStrategy};

#[test]
fn lod_default_is_high() {
    assert_eq!(LodLevel::default(), LodLevel::High);
    assert_ne!(SimplificationStrategy::Auto, SimplificationStrategy::EdgeCollapse);
}

use cadagent::lod::lod_manager::{lod_level_for_bands, lod_level_with_state, DistanceBands};

fn bands(distance: f64, thresholds: [f64; 3], h: f64) -> DistanceBands {
    DistanceBands {
        below_high_lower: distance < thresholds[0] * (1.0 - h),
        above_high_upper: distance > thresholds[0] * (1.0 + h),
        below_medium_lower: distance < thresholds[1] * (1.0 - h),
        below_medium_upper: distance < thresholds[1] * (1.0 + h),
        below_low_lower: distance < thresholds[2] * (1.0 - h),
        below_low_upper: distance < thresholds[2] * (1.0 + h),
        above_low_upper: distance > thresholds[2] * (1.0 + h),
    }
}

#[test]
fn lod_levels_without_history() {
    let t = [10.0, 50.0, 100.0];
    assert_eq!(lod_level_for_bands(bands(5.0, t, 0.1)), LodLevel::High);
    assert_eq!(lod_level_for_bands(bands(50.0, t, 0.1)), LodLevel::High);
    assert_eq!(lod_level_for_bands(bands(75.0, t, 0.1)), LodLevel::Medium);
    assert_eq!(lod_level_for_bands(bands(105.0, t, 0.1)), LodLevel::Medium);
    assert_eq!(lod_level_for_bands(bands(150.0, t, 0.1)), LodLevel::Low);
}

#[test]
fn lod_levels_with_history_move_one_step() {
    let t = [10.0, 50.0, 100.0];
    assert_eq!(lod_level_with_state(LodLevel::High, bands(10.5, t, 0.1)), LodLevel::High);
    assert_eq!(lod_level_with_state(LodLevel::High, bands(500.0, t, 0.1)), LodLevel::Medium);
    assert_eq!(lod_level_with_state(LodLevel::Medium, bands(1.0, t, 0.1)), LodLevel::High);
    assert_eq!(lod_level_with_state(LodLevel::Medium, bands(105.0, t, 0.1)), LodLevel::Medium);
    assert_eq!(lod_level_with_state(LodLevel::Medium, bands(115.0, t, 0.1)), LodLevel::Low);
    assert_eq!(lod_level_with_state(LodLevel::Low, bands(95.0, t, 0.1)), LodLevel::Low);
    assert_eq!(lod_level_with_state(LodLevel::Low, bands(1.0, t, 0.1)), LodLevel::Medium);
    assert_eq!(lod_level_with_state(LodLevel::High, bands(15.0, [10.0, 50.0, 100.0], 0.5)), LodLevel::High);
    assert_eq!(lod_level_with_state(LodLevel::Medium, bands(150.0, [10.0, 50.0, 100.0], 0.5)), LodLevel::Medium);
}
