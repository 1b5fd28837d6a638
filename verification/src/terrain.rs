//! The terrain function: a pure map from parameters and sampled noise to
//! blocks.
//!
//! The noise sampler is real-valued and lives outside the library; it
//! hands the generator one [`ColumnNoise`] record per column, holding
//! everything the block rules read.  From there on the function is fully
//! verified: each column is pinned, cell for cell, to [`spec_column`].

use vstd::prelude::*;
use crate::block::{
    AIR, DIRT, GRASS, GRASS_BLOCK, GRAVEL, SAND, SEAGRASS, STONE, TALL_GRASS_LOWER,
    TALL_GRASS_UPPER, TALL_SEAGRASS_LOWER, TALL_SEAGRASS_UPPER, WATER, WATER_HEIGHT,
};
use crate::chunk::{cell_index, Chunk, CHUNK_VOLUME};
use crate::params::TerrainParams;

verus! {

/// Noise samples for one column, one entry per height `y` in `0..384`.
/// All samples are taken at the column's world position.
#[derive(Clone, Debug)]
pub struct ColumnNoise {
    /// Whether the terrain predicate holds at height `y`.
    pub terrain: Vec<bool>,
    /// Surface depth drawn at height `y`: how many underground cells
    /// below a surface found here stay dirt or gravel before stone.
    pub depth: Vec<u8>,
    /// Gravel line drawn at height `y`: gravel forms strictly below it.
    pub gravel_height: Vec<i32>,
    /// Sand line drawn at height `y`: sand forms from the gravel line up
    /// to (excluding) it.
    pub sand_height: Vec<i32>,
    /// Decoration density class at height `y`: 0 none, 1 short plants,
    /// 2 tall plants.
    pub deco: Vec<u8>,
}

impl ColumnNoise {
    pub open spec fn wf(self) -> bool {
        &&& self.terrain@.len() == 384
        &&& self.depth@.len() == 384
        &&& self.gravel_height@.len() == 384
        &&& self.sand_height@.len() == 384
        &&& self.deco@.len() == 384
    }
}

/// The block emitted at height `y`, given the walk state just above it:
/// `in_terrain` says whether the cell above was terrain, `depth` how
/// many soil cells are still owed.
pub open spec fn cell_block(
    p: TerrainParams,
    cn: ColumnNoise,
    y: int,
    in_terrain: bool,
    depth: u8,
) -> u16 {
    if cn.terrain@[y] {
        if in_terrain {
            if depth > 0 {
                if y < cn.gravel_height@[y] && p.enable_gravel {
                    GRAVEL
                } else if p.enable_grass {
                    DIRT
                } else {
                    AIR
                }
            } else {
                if p.enable_stone {
                    STONE
                } else {
                    AIR
                }
            }
        } else {
            if y < cn.gravel_height@[y] && p.enable_gravel {
                GRAVEL
            } else if cn.gravel_height@[y] <= y < cn.sand_height@[y] && p.enable_sand {
                SAND
            } else if p.enable_grass {
                GRASS_BLOCK
            } else {
                AIR
            }
        }
    } else {
        if y < WATER_HEIGHT && p.enable_water {
            WATER
        } else {
            AIR
        }
    }
}

/// The walk state handed down past height `y`.
pub open spec fn next_state(cn: ColumnNoise, y: int, in_terrain: bool, depth: u8) -> (bool, u8) {
    if cn.terrain@[y] {
        if in_terrain {
            if depth > 0 {
                (true, (depth - 1) as u8)
            } else {
                (true, 0u8)
            }
        } else {
            (true, cn.depth@[y])
        }
    } else {
        (false, 0u8)
    }
}

/// The walk state before the cell at height `y` is decided.  The walk
/// starts above the top of the column with `(false, 0)`.
pub open spec fn state_at(cn: ColumnNoise, y: int) -> (bool, u8)
    decreases 383 - y when y <= 383
{
    if y >= 383 {
        (false, 0u8)
    } else {
        let s = state_at(cn, y + 1);
        next_state(cn, y + 1, s.0, s.1)
    }
}

/// The block at height `y` before decoration.
pub open spec fn base_block(p: TerrainParams, cn: ColumnNoise, y: int) -> u16 {
    cell_block(p, cn, y, state_at(cn, y).0, state_at(cn, y).1)
}

/// The whole column before decoration, bottom to top.
pub open spec fn base_column(p: TerrainParams, cn: ColumnNoise) -> Seq<u16> {
    Seq::new(384, |y: int| base_block(p, cn, y))
}

/// Whether the decoration pass runs at all.
pub open spec fn deco_enabled(p: TerrainParams) -> bool {
    (p.enable_water && p.enable_gravel) || p.enable_grass
}

/// One decoration step at height `y` (`1 <= y <= 383`): plants grow on
/// grass blocks under air, seagrass on gravel under water.  Tall plants
/// take the cell above as well; at the top of the column, where there is
/// no cell above, only the short form can grow.
pub open spec fn decorate_cell(
    p: TerrainParams,
    cn: ColumnNoise,
    s: Seq<u16>,
    y: int,
) -> Seq<u16> {
    if s[y] == AIR && s[y - 1] == GRASS_BLOCK {
        if cn.deco@[y] >= 1 {
            if cn.deco@[y] >= 2 && y + 1 < 384 && s[y + 1] == AIR {
                s.update(y + 1, TALL_GRASS_UPPER).update(y, TALL_GRASS_LOWER)
            } else {
                s.update(y, GRASS)
            }
        } else {
            s
        }
    } else if s[y] == WATER && s[y - 1] == GRAVEL && p.enable_water && p.enable_gravel {
        if cn.deco@[y] >= 1 {
            if cn.deco@[y] >= 2 && y + 1 < 384 && s[y + 1] == WATER {
                s.update(y + 1, TALL_SEAGRASS_UPPER).update(y, TALL_SEAGRASS_LOWER)
            } else {
                s.update(y, SEAGRASS)
            }
        } else {
            s
        }
    } else {
        s
    }
}

/// The column after the decoration pass has run from the top down to
/// height `y`.  The pass never looks at height 0's lower neighbour, so
/// it stops at `y == 1`.
pub open spec fn decorate_down(
    p: TerrainParams,
    cn: ColumnNoise,
    s0: Seq<u16>,
    y: int,
) -> Seq<u16>
    decreases 384 - y when y <= 384
{
    if y >= 384 {
        s0
    } else {
        decorate_cell(p, cn, decorate_down(p, cn, s0, y + 1), y)
    }
}

/// What the generator produces for one column.
pub open spec fn spec_column(p: TerrainParams, cn: ColumnNoise) -> Seq<u16> {
    if deco_enabled(p) {
        decorate_down(p, cn, base_column(p, cn), 1)
    } else {
        base_column(p, cn)
    }
}

/// Fills one column of `chunk` from its noise record: the downward
/// terrain walk first, then the decoration pass.
pub fn gen_block(
    p: &TerrainParams,
    cn: &ColumnNoise,
    chunk: &mut Chunk,
    offset_x: usize,
    offset_z: usize,
)
    requires
        old(chunk).wf(),
        cn.wf(),
        offset_x < 16,
        offset_z < 16,
    ensures
        final(chunk).wf(),
        forall|y: int|
            0 <= y < 384 ==> final(chunk).spec_block(offset_x as int, y, offset_z as int)
                == spec_column(*p, *cn)[y],
        forall|i: int|
            0 <= i < CHUNK_VOLUME && !(column_base(offset_x as int, offset_z as int) <= i
                < column_base(offset_x as int, offset_z as int) + 384) ==> final(chunk)@[i]
                == old(chunk)@[i],
{
    let col = gen_column(p, cn);
    write_column(chunk, offset_x, offset_z, &col);
}

/// First cell index of the column at `(x, z)`.
pub open spec fn column_base(x: int, z: int) -> int {
    (z * 16 + x) * 384
}

/// Builds one column as a vector, bottom to top.
fn gen_column(p: &TerrainParams, cn: &ColumnNoise) -> (col: Vec<u16>)
    requires
        cn.wf(),
    ensures
        col@ == spec_column(*p, *cn),
        col@.len() == 384,
{
    let mut col: Vec<u16> = Vec::new();
    while col.len() < 384
        invariant
            col@.len() <= 384,
            forall|i: int| 0 <= i < col@.len() ==> col@[i] == AIR,
        decreases 384 - col@.len(),
    {
        col.push(AIR);
    }

    // Downward walk: decide every cell from the terrain predicate and
    // the soil depth still owed.
    let mut in_terrain: bool = false;
    let mut depth: u8 = 0;
    let mut yi: usize = 384;
    while yi > 0
        invariant
            yi <= 384,
            cn.wf(),
            col@.len() == 384,
            in_terrain == state_at(*cn, yi - 1).0,
            depth == state_at(*cn, yi - 1).1,
            forall|i: int| yi <= i < 384 ==> col@[i] == base_block(*p, *cn, i),
        decreases yi,
    {
        let y = yi - 1;
        let block: u16;
        if cn.terrain[y] {
            let gravel_height = cn.gravel_height[y];
            let sand_height = cn.sand_height[y];
            if in_terrain {
                if depth > 0 {
                    depth = depth - 1;
                    block = if (y as i32) < gravel_height && p.enable_gravel {
                        GRAVEL
                    } else if p.enable_grass {
                        DIRT
                    } else {
                        AIR
                    };
                } else {
                    block = if p.enable_stone {
                        STONE
                    } else {
                        AIR
                    };
                }
            } else {
                in_terrain = true;
                depth = cn.depth[y];
                block = if (y as i32) < gravel_height && p.enable_gravel {
                    GRAVEL
                } else if gravel_height <= (y as i32) && (y as i32) < sand_height
                    && p.enable_sand {
                    SAND
                } else if p.enable_grass {
                    GRASS_BLOCK
                } else {
                    AIR
                };
            }
        } else {
            in_terrain = false;
            depth = 0;
            block = if (y as i32) < WATER_HEIGHT && p.enable_water {
                WATER
            } else {
                AIR
            };
        }
        col.set(y, block);
        yi = y;
    }
    proof {
        assert(col@ =~= base_column(*p, *cn));
    }

    // Decoration pass, top down; height 0 has no lower neighbour and is
    // never decorated.
    if (p.enable_water && p.enable_gravel) || p.enable_grass {
        let ghost s0 = col@;
        let mut yi: usize = 384;
        while yi > 1
            invariant
                1 <= yi <= 384,
                cn.wf(),
                s0.len() == 384,
                col@.len() == 384,
                col@ == decorate_down(*p, *cn, s0, yi as int),
            decreases yi,
        {
            let y = yi - 1;
            let here = col[y];
            let below = col[y - 1];
            if here == AIR && below == GRASS_BLOCK {
                if cn.deco[y] >= 1 {
                    if cn.deco[y] >= 2 && y + 1 < 384 && col[y + 1] == AIR {
                        col.set(y + 1, TALL_GRASS_UPPER);
                        col.set(y, TALL_GRASS_LOWER);
                    } else {
                        col.set(y, GRASS);
                    }
                }
            } else if here == WATER && below == GRAVEL && p.enable_water && p.enable_gravel {
                if cn.deco[y] >= 1 {
                    if cn.deco[y] >= 2 && y + 1 < 384 && col[y + 1] == WATER {
                        col.set(y + 1, TALL_SEAGRASS_UPPER);
                        col.set(y, TALL_SEAGRASS_LOWER);
                    } else {
                        col.set(y, SEAGRASS);
                    }
                }
            }
            yi = y;
        }
    }
    col
}

/// What it means for a block grid to be the generator's output for a
/// parameter set and a sheet of noise samples (one record per column,
/// indexed by `z * 16 + x`).
pub open spec fn generated_by(p: TerrainParams, noise: Seq<ColumnNoise>, c: Seq<u16>) -> bool {
    &&& c.len() == CHUNK_VOLUME
    &&& forall|x: int, y: int, z: int|
        0 <= x < 16 && 0 <= y < 384 && 0 <= z < 16 ==> c[#[trigger] cell_index(x, y, z)]
            == spec_column(p, noise[z * 16 + x])[y]
}

/// Generates a whole chunk from its noise sheet.
pub fn gen_chunk(p: &TerrainParams, noise: &Vec<ColumnNoise>) -> (r: Chunk)
    requires
        noise@.len() == 256,
        forall|i: int| 0 <= i < 256 ==> (#[trigger] noise@[i]).wf(),
    ensures
        r.wf(),
        generated_by(*p, noise@, r@),
{
    let mut chunk = Chunk::new();
    let mut offset_z: usize = 0;
    while offset_z < 16
        invariant
            offset_z <= 16,
            chunk.wf(),
            noise@.len() == 256,
            forall|i: int| 0 <= i < 256 ==> (#[trigger] noise@[i]).wf(),
            forall|x: int, y: int, z: int|
                0 <= x < 16 && 0 <= y < 384 && 0 <= z < offset_z ==> chunk@[#[trigger] cell_index(
                    x, y, z)] == spec_column(*p, noise@[z * 16 + x])[y],
        decreases 16 - offset_z,
    {
        let mut offset_x: usize = 0;
        while offset_x < 16
            invariant
                offset_x <= 16,
                offset_z < 16,
                chunk.wf(),
                noise@.len() == 256,
                forall|i: int| 0 <= i < 256 ==> (#[trigger] noise@[i]).wf(),
                forall|x: int, y: int, z: int|
                    0 <= x < 16 && 0 <= y < 384 && 0 <= z < offset_z ==> chunk@[
                        #[trigger] cell_index(x, y, z)] == spec_column(*p, noise@[z * 16 + x])[y],
                forall|x: int, y: int|
                    0 <= x < offset_x && 0 <= y < 384 ==> chunk@[#[trigger] cell_index(
                        x, y, offset_z as int)] == spec_column(*p, noise@[offset_z * 16 + x])[y],
            decreases 16 - offset_x,
        {
            let cn = &noise[offset_z * 16 + offset_x];
            gen_block(p, cn, &mut chunk, offset_x, offset_z);
            offset_x = offset_x + 1;
        }
        offset_z = offset_z + 1;
    }
    chunk
}

/// Determinism: the generator's output is a function of the parameters
/// and the noise sheet alone.  Two grids generated from equal inputs are
/// equal cell for cell.
pub proof fn lemma_generate_deterministic(
    p: TerrainParams,
    noise: Seq<ColumnNoise>,
    c1: Seq<u16>,
    c2: Seq<u16>,
)
    requires
        generated_by(p, noise, c1),
        generated_by(p, noise, c2),
    ensures
        c1 == c2,
{
    assert forall|i: int| 0 <= i < CHUNK_VOLUME implies c1[i] == c2[i] by {
        let y = i % 384;
        let col = i / 384;
        let x = col % 16;
        let z = col / 16;
        vstd::arithmetic::div_mod::lemma_fundamental_div_mod(i, 384);
        vstd::arithmetic::div_mod::lemma_mod_division_less_than_divisor(i, 384);
        vstd::arithmetic::div_mod::lemma_fundamental_div_mod(col, 16);
        vstd::arithmetic::div_mod::lemma_mod_division_less_than_divisor(col, 16);
        assert(cell_index(x, y, z) == i);
    }
    assert(c1 =~= c2);
}

/// The column shape is kept by every decoration step.
pub proof fn lemma_decorate_down_len(p: TerrainParams, cn: ColumnNoise, s0: Seq<u16>, y: int)
    requires
        s0.len() == 384,
        1 <= y <= 384,
    ensures
        decorate_down(p, cn, s0, y).len() == 384,
    decreases 384 - y,
{
    if y >= 384 {
    } else {
        lemma_decorate_down_len(p, cn, s0, y + 1);
    }
}

/// Writes a finished column into the chunk, touching nothing else.
fn write_column(chunk: &mut Chunk, offset_x: usize, offset_z: usize, col: &Vec<u16>)
    requires
        old(chunk).wf(),
        offset_x < 16,
        offset_z < 16,
        col@.len() == 384,
    ensures
        final(chunk).wf(),
        forall|y: int|
            0 <= y < 384 ==> final(chunk).spec_block(offset_x as int, y, offset_z as int)
                == col@[y],
        forall|i: int|
            0 <= i < CHUNK_VOLUME && !(column_base(offset_x as int, offset_z as int) <= i
                < column_base(offset_x as int, offset_z as int) + 384) ==> final(chunk)@[i]
                == old(chunk)@[i],
{
    let mut y: usize = 0;
    while y < 384
        invariant
            y <= 384,
            chunk.wf(),
            offset_x < 16,
            offset_z < 16,
            col@.len() == 384,
            forall|j: int|
                0 <= j < y ==> chunk.spec_block(offset_x as int, j, offset_z as int) == col@[j],
            forall|i: int|
                0 <= i < CHUNK_VOLUME && !(column_base(offset_x as int, offset_z as int) <= i
                    < column_base(offset_x as int, offset_z as int) + 384) ==> chunk@[i]
                    == old(chunk)@[i],
        decreases 384 - y,
    {
        chunk.set_block_state(offset_x, y, offset_z, col[y]);
        y = y + 1;
    }
}

} // verus!
