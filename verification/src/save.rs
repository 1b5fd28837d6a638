//! The saved form of a chunk and the region that groups chunks on disk.

use vstd::prelude::*;
use crate::block::AIR;
use crate::chunk::{cell_index, Chunk, CHUNK_VOLUME};
use crate::params::TerrainParams;
use crate::pos::{ChunkPos, RegionPos};

verus! {

/// One saved cell: offsets into the chunk plus the block code.
#[derive(Clone, Copy, Debug, PartialEq, Eq, Structural, Hash)]
pub struct Block {
    pub x: usize,
    pub y: usize,
    pub z: usize,
    pub kind: u16,
}

impl Block {
    pub open spec fn wf(self) -> bool {
        self.x < 16 && self.y < 384 && self.z < 16
    }
}

/// The saved form of a chunk: its position and a list of cells.
/// A cell that is listed nowhere reads as air.
#[derive(Debug)]
pub struct SaveChunk {
    pub pos: (i32, i32),
    pub blocks: Vec<Block>,
}

/// The mathematical value of a [`SaveChunk`].
pub ghost struct SaveChunkV {
    pub pos: (int, int),
    pub blocks: Seq<Block>,
}

impl SaveChunkV {
    pub open spec fn wf(self) -> bool {
        &&& -0x8000_0000 <= self.pos.0 < 0x8000_0000
        &&& -0x8000_0000 <= self.pos.1 < 0x8000_0000
        &&& self.blocks.len() < 0x1_0000_0000_0000_0000
        &&& forall|i: int| 0 <= i < self.blocks.len() ==> (#[trigger] self.blocks[i]).wf()
    }
}

impl View for SaveChunk {
    type V = SaveChunkV;

    open spec fn view(&self) -> SaveChunkV {
        SaveChunkV { pos: (self.pos.0 as int, self.pos.1 as int), blocks: self.blocks@ }
    }
}

impl SaveChunk {
    pub open spec fn wf(self) -> bool {
        forall|i: int| 0 <= i < self.blocks@.len() ==> (#[trigger] self.blocks@[i]).wf()
    }

    /// Walks the saved cells in order.
    pub fn into_iter(self) -> (r: SaveChunkIterator)
        ensures
            r.blocks@ == self.blocks@,
            r.next.0 == 0,
    {
        SaveChunkIterator { blocks: self.blocks, next: SaveChunkId(0) }
    }
}

/// Cursor of a [`SaveChunkIterator`].
pub struct SaveChunkId(pub usize);

/// Hands out the saved cells of a chunk one at a time.
pub struct SaveChunkIterator {
    pub blocks: Vec<Block>,
    pub next: SaveChunkId,
}

impl SaveChunkIterator {
    /// The next saved cell as `((x, y, z), kind)`, or nothing when all
    /// cells have been handed out.
    pub fn next(&mut self) -> (r: Option<((usize, usize, usize), u16)>)
        ensures
            final(self).blocks@ == old(self).blocks@,
            old(self).next.0 < old(self).blocks@.len() ==> {
                &&& final(self).next.0 == old(self).next.0 + 1
                &&& r == Some(
                    (
                        (
                            old(self).blocks@[old(self).next.0 as int].x,
                            old(self).blocks@[old(self).next.0 as int].y,
                            old(self).blocks@[old(self).next.0 as int].z,
                        ),
                        old(self).blocks@[old(self).next.0 as int].kind,
                    ),
                )
            },
            old(self).next.0 >= old(self).blocks@.len() ==> {
                &&& final(self).next.0 == old(self).next.0
                &&& r is None
            },
    {
        let i = self.next.0;
        if i < self.blocks.len() {
            let b = self.blocks[i];
            self.next.0 = i + 1;
            Some(((b.x, b.y, b.z), b.kind))
        } else {
            None
        }
    }
}

/// Slot of `(x, y, z)` in the saved cell list: columns in the order
/// `z` outer, `x` inner, each column from the top down.
pub open spec fn save_index(x: int, y: int, z: int) -> int {
    (z * 16 + x) * 384 + 383 - y
}

/// The saved cell in slot `i` of a chunk grid.
pub open spec fn save_slot(c: Seq<u16>, i: int) -> Block {
    let col = i / 384;
    let y = 383 - i % 384;
    let x = col % 16;
    let z = col / 16;
    Block { x: x as usize, y: y as usize, z: z as usize, kind: c[cell_index(x, y, z)] }
}

/// The full saved cell list of a chunk grid: every cell, in slot order.
pub open spec fn chunk_blocks(c: Seq<u16>) -> Seq<Block> {
    Seq::new(CHUNK_VOLUME as nat, |i: int| save_slot(c, i))
}

impl SaveChunk {
    /// Flattens a chunk into its saved form, tagged with its position.
    pub fn from_chunk(chunk: &Chunk, pos: &ChunkPos) -> (r: SaveChunk)
        requires
            chunk.wf(),
        ensures
            r.pos.0 == pos.x,
            r.pos.1 == pos.z,
            r.blocks@ == chunk_blocks(chunk@),
            r.wf(),
    {
        let mut blocks: Vec<Block> = Vec::new();
        let mut offset_z: usize = 0;
        while offset_z < 16
            invariant
                offset_z <= 16,
                chunk.wf(),
                blocks@.len() == offset_z * 16 * 384,
                forall|i: int| 0 <= i < blocks@.len() ==> blocks@[i] == save_slot(chunk@, i),
            decreases 16 - offset_z,
        {
            let mut offset_x: usize = 0;
            while offset_x < 16
                invariant
                    offset_x <= 16,
                    offset_z < 16,
                    chunk.wf(),
                    blocks@.len() == (offset_z * 16 + offset_x) * 384,
                    forall|i: int| 0 <= i < blocks@.len() ==> blocks@[i] == save_slot(chunk@, i),
                decreases 16 - offset_x,
            {
                let mut yi: usize = 384;
                while yi > 0
                    invariant
                        yi <= 384,
                        offset_x < 16,
                        offset_z < 16,
                        chunk.wf(),
                        blocks@.len() == (offset_z * 16 + offset_x) * 384 + (384 - yi),
                        forall|i: int| 0 <= i < blocks@.len() ==> blocks@[i] == save_slot(chunk@, i),
                    decreases yi,
                {
                    let y = yi - 1;
                    let kind = chunk.block_state(offset_x, y, offset_z);
                    proof {
                        let col = offset_z as int * 16 + offset_x as int;
                        let slot = col * 384 + 383 - y as int;
                        vstd::arithmetic::div_mod::lemma_fundamental_div_mod_converse(
                            slot, 384, col, 383 - y as int);
                        vstd::arithmetic::div_mod::lemma_fundamental_div_mod_converse(
                            col, 16, offset_z as int, offset_x as int);
                    }
                    blocks.push(Block { x: offset_x, y: y, z: offset_z, kind });
                    yi = y;
                }
                offset_x = offset_x + 1;
            }
            offset_z = offset_z + 1;
        }
        proof {
            assert(blocks@ =~= chunk_blocks(chunk@));
            assert forall|i: int| 0 <= i < blocks@.len() implies (#[trigger] blocks@[i]).wf() by {
                lemma_save_slot_wf(chunk@, i);
            }
        }
        SaveChunk { pos: (pos.x, pos.z), blocks }
    }
}

/// Every slot of a chunk grid names an in-range cell.
proof fn lemma_save_slot_wf(c: Seq<u16>, i: int)
    requires
        0 <= i < CHUNK_VOLUME,
    ensures
        save_slot(c, i).wf(),
        save_index(save_slot(c, i).x as int, save_slot(c, i).y as int, save_slot(c, i).z as int)
            == i,
{
    vstd::arithmetic::div_mod::lemma_fundamental_div_mod(i, 384);
    vstd::arithmetic::div_mod::lemma_mod_division_less_than_divisor(i, 384);
    vstd::arithmetic::div_mod::lemma_fundamental_div_mod(i / 384, 16);
    vstd::arithmetic::div_mod::lemma_mod_division_less_than_divisor(i / 384, 16);
}

/// A chunk grid of nothing but air.
pub open spec fn all_air() -> Seq<u16> {
    Seq::new(CHUNK_VOLUME as nat, |i: int| AIR)
}

/// The grid after the first `n` saved cells have been written over air.
pub open spec fn apply_blocks(s: Seq<u16>, bs: Seq<Block>, n: int) -> Seq<u16>
    decreases n,
{
    if n <= 0 {
        s
    } else {
        let b = bs[n - 1];
        apply_blocks(s, bs, n - 1).update(cell_index(b.x as int, b.y as int, b.z as int), b.kind)
    }
}

impl Chunk {
    /// Rebuilds a chunk from its saved form: air everywhere, then every
    /// saved cell written in order.
    pub fn from_save(save: &SaveChunk) -> (r: Chunk)
        requires
            save.wf(),
        ensures
            r.wf(),
            r@ == apply_blocks(all_air(), save.blocks@, save.blocks@.len() as int),
    {
        let mut chunk = Chunk::new();
        proof {
            assert(chunk@ =~= all_air());
        }
        let mut i: usize = 0;
        while i < save.blocks.len()
            invariant
                i <= save.blocks@.len(),
                save.wf(),
                chunk.wf(),
                chunk@ == apply_blocks(all_air(), save.blocks@, i as int),
            decreases save.blocks@.len() - i,
        {
            let b = save.blocks[i];
            chunk.set_block_state(b.x, b.y, b.z, b.kind);
            i = i + 1;
        }
        chunk
    }
}

/// Writing out a chunk and reading it back restores it cell for cell.
pub proof fn lemma_chunk_round_trip(c: Seq<u16>)
    requires
        c.len() == CHUNK_VOLUME,
    ensures
        apply_blocks(all_air(), chunk_blocks(c), CHUNK_VOLUME as int) == c,
{
    lemma_apply_prefix(c, CHUNK_VOLUME as int);
    let a = apply_blocks(all_air(), chunk_blocks(c), CHUNK_VOLUME as int);
    assert forall|i: int| 0 <= i < CHUNK_VOLUME implies a[i] == c[i] by {
        let y = i % 384;
        let col = i / 384;
        let x = col % 16;
        let z = col / 16;
        vstd::arithmetic::div_mod::lemma_fundamental_div_mod(i, 384);
        vstd::arithmetic::div_mod::lemma_mod_division_less_than_divisor(i, 384);
        vstd::arithmetic::div_mod::lemma_fundamental_div_mod(col, 16);
        vstd::arithmetic::div_mod::lemma_mod_division_less_than_divisor(col, 16);
        assert(cell_index(x, y, z) == i);
        assert(save_index(x, y, z) < CHUNK_VOLUME);
    }
    assert(a =~= c);
}

/// After the first `n` slots are written, exactly the cells of those
/// slots hold the grid's values; the rest are still air.
proof fn lemma_apply_prefix(c: Seq<u16>, n: int)
    requires
        c.len() == CHUNK_VOLUME,
        0 <= n <= CHUNK_VOLUME,
    ensures
        apply_blocks(all_air(), chunk_blocks(c), n).len() == CHUNK_VOLUME,
        forall|x: int, y: int, z: int|
            0 <= x < 16 && 0 <= y < 384 && 0 <= z < 16 ==> apply_blocks(
                all_air(), chunk_blocks(c), n)[#[trigger] cell_index(x, y, z)] == if save_index(
                x, y, z) < n {
                c[cell_index(x, y, z)]
            } else {
                AIR
            },
    decreases n,
{
    if n <= 0 {
    } else {
        lemma_apply_prefix(c, n - 1);
        lemma_save_slot_wf(c, n - 1);
        let b = chunk_blocks(c)[n - 1];
        assert forall|x: int, y: int, z: int|
            0 <= x < 16 && 0 <= y < 384 && 0 <= z < 16 implies apply_blocks(
                all_air(), chunk_blocks(c), n)[#[trigger] cell_index(x, y, z)] == if save_index(
                x, y, z) < n {
                c[cell_index(x, y, z)]
            } else {
                AIR
            } by {
            if cell_index(x, y, z) == cell_index(b.x as int, b.y as int, b.z as int) {
                assert(x == b.x as int && y == b.y as int && z == b.z as int);
                assert(save_index(x, y, z) == n - 1);
            } else {
                assert(!(x == b.x as int && y == b.y as int && z == b.z as int));
                assert(save_index(x, y, z) != n - 1);
            }
        }
    }
}

/// A 16 x 16 square of saved chunks, tagged with the parameters that
/// produced them.  A region file holds exactly one of these.
#[derive(Debug)]
pub struct Region {
    pub pos: RegionPos,
    pub settings: TerrainParams,
    pub chunks: Vec<SaveChunk>,
}

/// The mathematical value of a [`Region`].
pub ghost struct RegionV {
    pub pos: (int, int),
    pub settings: TerrainParams,
    pub chunks: Seq<SaveChunkV>,
}

impl RegionV {
    pub open spec fn wf(self) -> bool {
        &&& -0x8000_0000_0000_0000 <= self.pos.0 < 0x8000_0000_0000_0000
        &&& -0x8000_0000_0000_0000 <= self.pos.1 < 0x8000_0000_0000_0000
        &&& self.chunks.len() < 0x1_0000_0000_0000_0000
        &&& forall|i: int| 0 <= i < self.chunks.len() ==> (#[trigger] self.chunks[i]).wf()
    }
}

impl View for Region {
    type V = RegionV;

    open spec fn view(&self) -> RegionV {
        RegionV {
            pos: (self.pos.x as int, self.pos.z as int),
            settings: self.settings,
            chunks: self.chunks@.map_values(|c: SaveChunk| c@),
        }
    }
}

impl Region {
    pub open spec fn wf(self) -> bool {
        forall|i: int| 0 <= i < self.chunks@.len() ==> (#[trigger] self.chunks@[i]).wf()
    }

    /// Whether some saved chunk in `chunks` sits at `(x, z)`.
    pub open spec fn spec_has_chunk(chunks: Seq<SaveChunk>, x: int, z: int) -> bool {
        exists|i: int|
            0 <= i < chunks.len() && (#[trigger] chunks[i]).pos.0 == x && chunks[i].pos.1 == z
    }

    /// The saved chunk at `pos`, if any: the first entry with that
    /// position.
    pub fn chunk(&self, pos: ChunkPos) -> (r: Option<&SaveChunk>)
        ensures
            match r {
                Some(c) => exists|i: int|
                    {
                        &&& 0 <= i < self.chunks@.len()
                        &&& *c == #[trigger] self.chunks@[i]
                        &&& c.pos.0 == pos.x && c.pos.1 == pos.z
                        &&& forall|j: int|
                            0 <= j < i ==> !((#[trigger] self.chunks@[j]).pos.0 == pos.x
                                && self.chunks@[j].pos.1 == pos.z)
                    },
                None => !Region::spec_has_chunk(self.chunks@, pos.x as int, pos.z as int),
            },
    {
        let mut i: usize = 0;
        while i < self.chunks.len()
            invariant
                i <= self.chunks@.len(),
                forall|j: int|
                    0 <= j < i ==> !((#[trigger] self.chunks@[j]).pos.0 == pos.x
                        && self.chunks@[j].pos.1 == pos.z),
            decreases self.chunks@.len() - i,
        {
            let c = &self.chunks[i];
            if c.pos.0 == pos.x && c.pos.1 == pos.z {
                return Some(c);
            }
            i = i + 1;
        }
        None
    }

    /// The region at `pos` among `regions`, if any: the first one.
    pub fn region(regions: &Vec<Region>, pos: RegionPos) -> (r: Option<&Region>)
        ensures
            match r {
                Some(reg) => exists|i: int|
                    {
                        &&& 0 <= i < regions@.len()
                        &&& *reg == #[trigger] regions@[i]
                        &&& reg.pos == pos
                        &&& forall|j: int| 0 <= j < i ==> (#[trigger] regions@[j]).pos != pos
                    },
                None => forall|i: int| 0 <= i < regions@.len() ==> (#[trigger] regions@[i]).pos
                    != pos,
            },
    {
        let mut i: usize = 0;
        while i < regions.len()
            invariant
                i <= regions@.len(),
                forall|j: int| 0 <= j < i ==> (#[trigger] regions@[j]).pos != pos,
            decreases regions@.len() - i,
        {
            let reg = &regions[i];
            if reg.pos.x == pos.x && reg.pos.z == pos.z {
                return Some(reg);
            }
            i = i + 1;
        }
        None
    }

    /// Looks a chunk up across a list of loaded regions, going through
    /// the region that owns its coordinates.
    pub fn chunk_from_regions(regions: &Vec<Region>, pos: ChunkPos) -> (r: Option<&SaveChunk>)
        ensures
            match r {
                Some(c) => c.pos.0 == pos.x && c.pos.1 == pos.z && exists|i: int, j: int|
                    #![trigger regions@[i].chunks@[j]]
                    {
                        &&& 0 <= i < regions@.len()
                        &&& regions@[i].pos == crate::pos::spec_region_pos_of(pos)
                        &&& forall|i2: int|
                            0 <= i2 < i ==> (#[trigger] regions@[i2]).pos
                                != crate::pos::spec_region_pos_of(pos)
                        &&& 0 <= j < regions@[i].chunks@.len()
                        &&& *c == regions@[i].chunks@[j]
                        &&& forall|j2: int|
                            0 <= j2 < j ==> !((#[trigger] regions@[i].chunks@[j2]).pos.0 == pos.x
                                && regions@[i].chunks@[j2].pos.1 == pos.z)
                    },
                None => forall|i: int|
                    0 <= i < regions@.len() && (#[trigger] regions@[i]).pos
                        == crate::pos::spec_region_pos_of(pos) && (forall|i2: int|
                        0 <= i2 < i ==> (#[trigger] regions@[i2]).pos
                            != crate::pos::spec_region_pos_of(pos)) ==> !Region::spec_has_chunk(
                        regions@[i].chunks@,
                        pos.x as int,
                        pos.z as int,
                    ),
            },
    {
        let rpos = crate::pos::chunkpos_to_regionpos(&pos);
        match Region::region(regions, rpos) {
            Some(reg) => {
                let r = reg.chunk(pos);
                proof {
                    let i0 = choose|i: int|
                        {
                            &&& 0 <= i < regions@.len()
                            &&& *reg == #[trigger] regions@[i]
                            &&& reg.pos == rpos
                            &&& forall|j: int|
                                0 <= j < i ==> (#[trigger] regions@[j]).pos != rpos
                        };
                    match r {
                        Some(c) => {
                            let j0 = choose|j: int|
                                {
                                    &&& 0 <= j < reg.chunks@.len()
                                    &&& *c == #[trigger] reg.chunks@[j]
                                    &&& c.pos.0 == pos.x && c.pos.1 == pos.z
                                    &&& forall|j2: int|
                                        0 <= j2 < j ==> !((#[trigger] reg.chunks@[j2]).pos.0
                                            == pos.x && reg.chunks@[j2].pos.1 == pos.z)
                                };
                            assert(regions@[i0].chunks@ == reg.chunks@);
                            assert(regions@[i0].chunks@[j0] == *c);
                        },
                        None => {
                            // The first region at the owning position is
                            // unique, and it holds no chunk at `pos`.
                            assert forall|i: int|
                                0 <= i < regions@.len() && (#[trigger] regions@[i]).pos
                                    == crate::pos::spec_region_pos_of(pos) && (forall|i2: int|
                                    0 <= i2 < i ==> (#[trigger] regions@[i2]).pos
                                        != crate::pos::spec_region_pos_of(pos))
                                implies !Region::spec_has_chunk(
                                regions@[i].chunks@, pos.x as int, pos.z as int) by {
                                if i < i0 {
                                    assert(regions@[i].pos != rpos);
                                } else if i0 < i {
                                    assert(regions@[i0].pos != crate::pos::spec_region_pos_of(
                                        pos));
                                } else {
                                    assert(regions@[i] == *reg);
                                }
                            }
                        },
                    }
                }
                r
            },
            None => None,
        }
    }

    /// Replaces the saved chunk at `save.pos`, or appends it if the
    /// region has none there yet.
    pub fn upsert_chunk(&mut self, save: SaveChunk)
        requires
            old(self).wf(),
            save.wf(),
        ensures
            final(self).wf(),
            final(self).pos == old(self).pos,
            final(self).settings == old(self).settings,
            Region::spec_has_chunk(old(self).chunks@, save.pos.0 as int, save.pos.1 as int)
                ==> exists|i: int|
                    {
                        &&& 0 <= i < old(self).chunks@.len()
                        &&& (#[trigger] old(self).chunks@[i]).pos == save.pos
                        &&& final(self).chunks@ == old(self).chunks@.update(i, save)
                    },
            !Region::spec_has_chunk(old(self).chunks@, save.pos.0 as int, save.pos.1 as int)
                ==> final(self).chunks@ == old(self).chunks@.push(save),
    {
        let mut i: usize = 0;
        while i < self.chunks.len()
            invariant
                i <= self.chunks@.len(),
                *self == *old(self),
                old(self).wf(),
                save.wf(),
                forall|j: int|
                    0 <= j < i ==> (#[trigger] self.chunks@[j]).pos != save.pos,
            decreases self.chunks@.len() - i,
        {
            let same = {
                let c = &self.chunks[i];
                c.pos.0 == save.pos.0 && c.pos.1 == save.pos.1
            };
            if same {
                self.chunks.set(i, save);
                proof {
                    assert forall|j: int|
                        0 <= j < self.chunks@.len() implies (#[trigger] self.chunks@[j]).wf() by {
                        if j != i as int {
                            assert(self.chunks@[j] == old(self).chunks@[j]);
                        }
                    }
                }
                return;
            }
            i = i + 1;
        }
        proof {
            assert forall|j: int|
                0 <= j < self.chunks@.len() implies (#[trigger] self.chunks@[j]).pos
                != save.pos by {}
        }
        self.chunks.push(save);
    }
}

} // verus!
