//! The chunk grid: a 16 x 384 x 16 box of block states.

use vstd::prelude::*;
use crate::block::AIR;

verus! {

/// Number of cells in a chunk.
pub const CHUNK_VOLUME: usize = 16 * 384 * 16;

/// Cell index of `(x, y, z)` in the flat block array.  Each column is
/// contiguous, ordered bottom to top.
pub open spec fn cell_index(x: int, y: int, z: int) -> int {
    (z * 16 + x) * 384 + y
}

/// A 16 x 384 x 16 column of block states, addressed by offsets
/// `x, z` in `0..16` and height `y` in `0..384`.
#[derive(Clone, Debug)]
pub struct Chunk {
    blocks: Vec<u16>,
}

impl View for Chunk {
    type V = Seq<u16>;

    closed spec fn view(&self) -> Seq<u16> {
        self.blocks@
    }
}

impl Chunk {
    pub open spec fn wf(self) -> bool {
        self@.len() == CHUNK_VOLUME
    }

    /// The block at `(x, y, z)`, as a spec-level shorthand.
    pub open spec fn spec_block(self, x: int, y: int, z: int) -> u16 {
        self@[cell_index(x, y, z)]
    }

    /// A chunk of nothing but air.
    pub fn new() -> (r: Chunk)
        ensures
            r.wf(),
            forall|i: int| 0 <= i < CHUNK_VOLUME ==> r@[i] == AIR,
    {
        let mut blocks: Vec<u16> = Vec::new();
        while blocks.len() < CHUNK_VOLUME
            invariant
                blocks@.len() <= CHUNK_VOLUME,
                forall|i: int| 0 <= i < blocks@.len() ==> blocks@[i] == AIR,
            decreases CHUNK_VOLUME - blocks@.len(),
        {
            blocks.push(AIR);
        }
        Chunk { blocks }
    }

    pub fn block_state(&self, x: usize, y: usize, z: usize) -> (r: u16)
        requires
            self.wf(),
            x < 16,
            y < 384,
            z < 16,
        ensures
            r == self.spec_block(x as int, y as int, z as int),
    {
        self.blocks[(z * 16 + x) * 384 + y]
    }

    pub fn set_block_state(&mut self, x: usize, y: usize, z: usize, block: u16)
        requires
            old(self).wf(),
            x < 16,
            y < 384,
            z < 16,
        ensures
            final(self).wf(),
            final(self)@ == old(self)@.update(cell_index(x as int, y as int, z as int), block),
    {
        let i = (z * 16 + x) * 384 + y;
        self.blocks.set(i, block);
    }
}

impl PartialEq for Chunk {
    /// Two chunks are equal iff every cell matches.
    fn eq(&self, other: &Chunk) -> (r: bool) {
        if self.blocks.len() != other.blocks.len() {
            return false;
        }
        let mut i: usize = 0;
        while i < self.blocks.len()
            invariant
                i <= self.blocks@.len(),
                self.blocks@.len() == other.blocks@.len(),
                forall|j: int| 0 <= j < i ==> self.blocks@[j] == other.blocks@[j],
            decreases self.blocks@.len() - i,
        {
            if self.blocks[i] != other.blocks[i] {
                return false;
            }
            i = i + 1;
        }
        proof {
            assert(self.blocks@ =~= other.blocks@);
        }
        true
    }
}

impl vstd::std_specs::cmp::PartialEqSpecImpl for Chunk {
    open spec fn obeys_eq_spec() -> bool {
        true
    }

    open spec fn eq_spec(&self, other: &Chunk) -> bool {
        self@ == other@
    }
}

} // verus!
