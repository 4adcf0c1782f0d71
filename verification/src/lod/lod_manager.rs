//! Detail levels of a mesh.

use vstd::prelude::*;

verus! {

/// Mesh resolution levels.
#[derive(Debug, Clone, Copy, PartialEq, Eq, Hash)]
pub enum LodLevel {
    /// Full precision.
    High,
    /// About half of the vertices and faces.
    Medium,
    /// About a tenth to a fifth of the vertices and faces.
    Low,
}

impl Default for LodLevel {
    /// Full precision.
    fn default() -> (l: LodLevel)
        ensures
            l is High,
    {
        LodLevel::High
    }
}

/// How a distance compares with the hysteresis bands around the LOD
/// thresholds: `below_x_lower` means closer than threshold `x` shrunk by the
/// hysteresis factor, `below_x_upper` closer than it grown by the factor,
/// and `above_x_upper` farther than it grown by the factor.
#[derive(Debug, Clone, Copy)]
pub struct DistanceBands {
    pub below_high_lower: bool,
    pub above_high_upper: bool,
    pub below_medium_lower: bool,
    pub below_medium_upper: bool,
    pub below_low_lower: bool,
    pub below_low_upper: bool,
    pub above_low_upper: bool,
}

/// The level for a distance with no history: High up to the upper medium
/// band, Medium up to the upper low band, Low beyond.
pub open spec fn level_for(b: DistanceBands) -> LodLevel {
    if b.below_high_lower || b.below_medium_lower || b.below_medium_upper {
        LodLevel::High
    } else if b.below_low_lower || b.below_low_upper {
        LodLevel::Medium
    } else {
        LodLevel::Low
    }
}

/// The level for a distance given the previous level: a level is only left
/// once the distance is clearly past the band around its threshold.
pub open spec fn next_level(previous: LodLevel, b: DistanceBands) -> LodLevel {
    match previous {
        LodLevel::High => if b.above_high_upper {
            LodLevel::Medium
        } else {
            LodLevel::High
        },
        LodLevel::Medium => if b.below_medium_lower {
            LodLevel::High
        } else if b.above_low_upper {
            LodLevel::Low
        } else {
            LodLevel::Medium
        },
        LodLevel::Low => if b.below_low_lower {
            LodLevel::Medium
        } else {
            LodLevel::Low
        },
    }
}

/// The level for a distance with no history, from its bands.
pub fn lod_level_for_bands(bands: DistanceBands) -> (r: LodLevel)
    ensures
        r == level_for(bands),
{
    if bands.below_high_lower {
        LodLevel::High
    } else if bands.below_medium_lower {
        LodLevel::High
    } else if bands.below_medium_upper {
        LodLevel::High
    } else if bands.below_low_lower {
        LodLevel::Medium
    } else if bands.below_low_upper {
        LodLevel::Medium
    } else {
        LodLevel::Low
    }
}

/// The level for a distance given the previous level, from its bands.
pub fn lod_level_with_state(previous: LodLevel, bands: DistanceBands) -> (r: LodLevel)
    ensures
        r == next_level(previous, bands),
{
    match previous {
        LodLevel::High => {
            if bands.above_high_upper {
                LodLevel::Medium
            } else {
                LodLevel::High
            }
        },
        LodLevel::Medium => {
            if bands.below_medium_lower {
                LodLevel::High
            } else if bands.above_low_upper {
                LodLevel::Low
            } else {
                LodLevel::Medium
            }
        },
        LodLevel::Low => {
            if bands.below_low_lower {
                LodLevel::Medium
            } else {
                LodLevel::Low
            }
        },
    }
}

/// The rank of a level, from High (0) to Low (2).
pub open spec fn level_rank(l: LodLevel) -> int {
    match l {
        LodLevel::High => 0,
        LodLevel::Medium => 1,
        LodLevel::Low => 2,
    }
}

/// With history, the level moves by at most one step at a time: High never
/// turns Low directly, nor Low High.
pub proof fn lemma_one_step_at_a_time(previous: LodLevel, b: DistanceBands)
    ensures
        -1 <= level_rank(next_level(previous, b)) - level_rank(previous) <= 1,
{
}

/// Bands that come from one distance and thresholds in increasing order
/// (each band's lower edge below its upper edge, the medium band below the
/// low band).
pub open spec fn coherent_bands(b: DistanceBands) -> bool {
    &&& b.below_high_lower ==> b.below_medium_lower
    &&& b.below_medium_lower ==> b.below_medium_upper
    &&& b.below_medium_upper ==> b.below_low_lower
    &&& b.below_low_lower ==> b.below_low_upper
    &&& b.above_low_upper ==> !b.below_low_upper
}

/// From the medium level, a distance outside the hysteresis bands of the
/// medium and low thresholds gets the same level as with no history: only
/// inside a band does the previous level hold.
pub proof fn lemma_medium_agrees_outside_bands(b: DistanceBands)
    requires
        coherent_bands(b),
        b.below_medium_lower || !b.below_medium_upper,
        b.below_low_lower || b.above_low_upper,
    ensures
        next_level(LodLevel::Medium, b) == level_for(b),
{
}

/// From the high level the level stays high while closer than the grown
/// high threshold; from the low level it stays low while not closer than
/// the shrunk low threshold. A level is never left from within its band.
pub proof fn lemma_levels_hold_within_bands(b: DistanceBands)
    ensures
        !b.above_high_upper ==> next_level(LodLevel::High, b) == LodLevel::High,
        !b.below_low_lower ==> next_level(LodLevel::Low, b) == LodLevel::Low,
        !b.below_medium_lower && !b.above_low_upper ==> next_level(LodLevel::Medium, b) == LodLevel::Medium,
{
}

} // verus!
