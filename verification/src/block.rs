//! Block state codes.
//!
//! A block state is an opaque 16-bit code.  Only the states that the
//! generator emits are named here; the host maps them onto its own
//! palette.

use vstd::prelude::*;

verus! {

pub const AIR: u16 = 0;
pub const STONE: u16 = 1;
pub const DIRT: u16 = 2;
pub const GRASS_BLOCK: u16 = 3;
pub const GRAVEL: u16 = 4;
pub const SAND: u16 = 5;
pub const WATER: u16 = 6;
pub const GRASS: u16 = 7;
pub const TALL_GRASS_LOWER: u16 = 8;
pub const TALL_GRASS_UPPER: u16 = 9;
pub const SEAGRASS: u16 = 10;
pub const TALL_SEAGRASS_LOWER: u16 = 11;
pub const TALL_SEAGRASS_UPPER: u16 = 12;

/// Water level: cells outside the terrain below this height are water.
pub const WATER_HEIGHT: i32 = 120;

pub open spec fn is_air(b: u16) -> bool {
    b == AIR
}

pub open spec fn is_liquid(b: u16) -> bool {
    b == WATER
}

} // verus!
