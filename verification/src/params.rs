//! Terrain parameters.
//!
//! The generator's real-valued knobs (point scalings, lacunarity,
//! persistence) are carried as IEEE-754 bit patterns in `u64` fields.
//! The library never does arithmetic on them: they are opaque words that
//! the noise sampler outside the library turns back into numbers.
//! Keeping them as bits makes equality of two parameter sets structural
//! and exact, which the persistence layer depends on.

use vstd::prelude::*;

verus! {

/// Bit pattern of 10.0, the default point scaling of both height fields.
pub const BITS_10_0: u64 = 0x4024_0000_0000_0000;

/// Bit pattern of 15.0, the default stone point scaling.
pub const BITS_15_0: u64 = 0x402E_0000_0000_0000;

/// Bit pattern of 2.0, the default lacunarity.
pub const BITS_2_0: u64 = 0x4000_0000_0000_0000;

/// Bit pattern of 0.5, the default sand persistence.
pub const BITS_0_5: u64 = 0x3FE0_0000_0000_0000;

/// Bit pattern of -1.5, the default gravel persistence.
pub const BITS_NEG_1_5: u64 = 0xBFF8_0000_0000_0000;

/// Parameters of one fractional-Brownian-motion composite.
#[derive(Clone, Copy, Debug, PartialEq, Eq, Structural, Hash)]
pub struct FbmParams {
    /// IEEE-754 bits of the positive scale that sample points are divided by.
    pub point_scaling: u64,
    /// Number of octaves, at least 1.
    pub octaves: u32,
    /// IEEE-754 bits of the frequency multiplier between octaves.
    pub lacunarity: u64,
    /// IEEE-754 bits of the amplitude multiplier between octaves.
    pub persistence: u64,
}

impl FbmParams {
    /// The fbm shape that the gravel height is read from.
    pub fn default_gravel() -> (r: FbmParams)
        ensures
            r == spec_default_gravel(),
    {
        FbmParams {
            point_scaling: BITS_10_0,
            octaves: 3,
            lacunarity: BITS_2_0,
            persistence: BITS_NEG_1_5,
        }
    }

    /// The fbm shape that the sand height is read from.
    pub fn default_sand() -> (r: FbmParams)
        ensures
            r == spec_default_sand(),
    {
        FbmParams {
            point_scaling: BITS_10_0,
            octaves: 1,
            lacunarity: BITS_2_0,
            persistence: BITS_0_5,
        }
    }
}

pub open spec fn spec_default_gravel() -> FbmParams {
    FbmParams {
        point_scaling: BITS_10_0,
        octaves: 3,
        lacunarity: BITS_2_0,
        persistence: BITS_NEG_1_5,
    }
}

pub open spec fn spec_default_sand() -> FbmParams {
    FbmParams {
        point_scaling: BITS_10_0,
        octaves: 1,
        lacunarity: BITS_2_0,
        persistence: BITS_0_5,
    }
}

/// Full parameter set of the terrain function.  Equality is structural;
/// two equal values describe bit-identical worlds.
#[derive(Clone, Copy, Debug, PartialEq, Eq, Structural, Hash)]
pub struct TerrainParams {
    pub enable_gravel: bool,
    pub gravel_height: FbmParams,
    pub enable_sand: bool,
    pub sand_offset: i32,
    pub sand_height: FbmParams,
    pub enable_stone: bool,
    /// IEEE-754 bits of the positive scale of the surface-depth noise.
    pub stone_point_scaling: u64,
    pub enable_grass: bool,
    pub enable_water: bool,
    pub seed: u32,
}

pub open spec fn spec_default_params(seed: u32) -> TerrainParams {
    TerrainParams {
        enable_gravel: true,
        gravel_height: spec_default_gravel(),
        enable_sand: true,
        sand_offset: 5,
        sand_height: spec_default_sand(),
        enable_stone: true,
        stone_point_scaling: BITS_15_0,
        enable_grass: true,
        enable_water: true,
        seed: seed,
    }
}

impl TerrainParams {
    /// The default parameter set for a given base seed: every feature
    /// enabled, sand five blocks above the gravel line, stone depth
    /// noise at scale 15.
    pub fn default_with_seed(seed: u32) -> (r: TerrainParams)
        ensures
            r == spec_default_params(seed),
    {
        TerrainParams {
            enable_gravel: true,
            gravel_height: FbmParams::default_gravel(),
            enable_sand: true,
            sand_offset: 5,
            sand_height: FbmParams::default_sand(),
            enable_stone: true,
            stone_point_scaling: BITS_15_0,
            enable_grass: true,
            enable_water: true,
            seed: seed,
        }
    }

    /// True iff replacing `self` by `new` has to re-derive the five
    /// noise fields.
    pub fn needs_reseed(&self, new: &TerrainParams) -> (r: bool)
        ensures
            r == (self.seed != new.seed),
    {
        self.seed != new.seed
    }
}

} // verus!
