//! Portfolio rebalancing guidance: derived allocations, per-holding deviations,
//! the asset-class decision and the next purchase.
//!
//! Money is held in minor currency units, goal percentages in hundredths of a
//! percent, and derived percentages as exact fractions of those units.

pub mod model;
pub mod actual;
pub mod diff;
pub mod decision;
pub mod portfolio;

