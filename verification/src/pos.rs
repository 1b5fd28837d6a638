//! Chunk and region coordinates.

use vstd::prelude::*;

verus! {

/// Position of a 16x16 column chunk in the world grid.
#[derive(Clone, Copy, Debug, PartialEq, Eq, Structural, Hash)]
pub struct ChunkPos {
    pub x: i32,
    pub z: i32,
}

impl ChunkPos {
    pub fn new(x: i32, z: i32) -> (r: ChunkPos)
        ensures
            r.x == x,
            r.z == z,
    {
        ChunkPos { x, z }
    }

    /// The pair of coordinates as mathematical integers, used as a map key.
    pub open spec fn key(self) -> (int, int) {
        (self.x as int, self.z as int)
    }
}

/// Position of a 16x16 square of chunks persisted as one file.
#[derive(Clone, Copy, Debug, PartialEq, Eq, Structural, Hash)]
pub struct RegionPos {
    pub x: i64,
    pub z: i64,
}

/// Mathematical floor division, the meaning of a region coordinate.
/// Division on `int` rounds toward negative infinity, so this is the
/// true floor also for negative coordinates.
pub open spec fn floor_div_16(a: int) -> int {
    a / 16
}

/// The region that owns a chunk position.
pub open spec fn spec_region_pos_of(p: ChunkPos) -> RegionPos {
    RegionPos { x: floor_div_16(p.x as int) as i64, z: floor_div_16(p.z as int) as i64 }
}

/// Maps a chunk position to the region that owns it, by true floor
/// division: every chunk belongs to exactly one region, also at
/// negative coordinates.
pub fn chunkpos_to_regionpos(pos: &ChunkPos) -> (r: RegionPos)
    ensures
        r == spec_region_pos_of(*pos),
        r.x == floor_div_16(pos.x as int),
        r.z == floor_div_16(pos.z as int),
        16 * r.x <= pos.x < 16 * r.x + 16,
        16 * r.z <= pos.z < 16 * r.z + 16,
{
    let x = floor_div_16_exec(pos.x);
    let z = floor_div_16_exec(pos.z);
    RegionPos { x, z }
}

fn floor_div_16_exec(a: i32) -> (r: i64)
    ensures
        r == floor_div_16(a as int),
        16 * r <= a < 16 * r + 16,
{
    if a >= 0 {
        let q = (a as u64) / 16;
        proof {
            vstd::arithmetic::div_mod::lemma_fundamental_div_mod(a as int, 16);
        }
        q as i64
    } else {
        let m: u64 = (-(a as i64)) as u64;
        let qt: u64 = m / 16;
        let rm: u64 = m % 16;
        let r: i64 = if rm == 0 {
            -(qt as i64)
        } else {
            -(qt as i64) - 1
        };
        proof {
            vstd::arithmetic::div_mod::lemma_fundamental_div_mod(m as int, 16);
            if rm == 0 {
                vstd::arithmetic::div_mod::lemma_fundamental_div_mod_converse(
                    a as int, 16, r as int, 0);
            } else {
                vstd::arithmetic::div_mod::lemma_fundamental_div_mod_converse(
                    a as int, 16, r as int, 16 - rm as int);
            }
        }
        r
    }
}

} // verus!
