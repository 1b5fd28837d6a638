//! The chunk worker: what each message does to the worker's state.
//!
//! Workers run on host threads and block on a request channel; the
//! loop, the channels and the noise sampling live with the host.  Every
//! decision a worker takes stands here, verified: the cache lookup, the
//! use of a loaded region, the write-back of a generated chunk, and the
//! reconfiguration step that swaps the parameters and empties the
//! cache.

use vstd::prelude::*;
use crate::cache::ChunkCache;
use crate::chunk::Chunk;
use crate::params::TerrainParams;
use crate::pos::ChunkPos;
use crate::save::{all_air, apply_blocks, Region};
use crate::terrain::{gen_chunk, generated_by, ColumnNoise};

verus! {

/// A request to the worker pool.
pub enum WorkerMessage {
    /// Produce the chunk at this position.
    Chunk(ChunkPos),
    /// Drop every cached chunk.
    EmptyCache,
    /// Report the parameters in force.
    GetTerrainSettings,
    /// Replace the parameters, re-deriving the noise fields if the seed
    /// changed, and empty the cache.
    SetTerrainSettings(TerrainParams),
}

/// An answer from the worker pool.
pub enum WorkerResponse {
    Chunk(ChunkPos, Chunk),
    GetTerrainSettings(TerrainParams),
    TerrainSettingsSet,
}

/// The state a worker reads and writes: the parameters in force and
/// the cache shared by the pool.
pub struct ChunkWorker {
    pub settings: TerrainParams,
    pub cache: ChunkCache,
}

impl ChunkWorker {
    pub open spec fn wf(self) -> bool {
        self.cache.wf()
    }

    pub fn new(settings: TerrainParams, capacity: usize) -> (r: ChunkWorker)
        requires
            capacity >= 1,
        ensures
            r.wf(),
            r.settings == settings,
            r.cache@ == Map::<(int, int), Seq<u16>>::empty(),
            r.cache.bound() == capacity,
    {
        ChunkWorker { settings, cache: ChunkCache::new(capacity) }
    }

    /// Answers a parameter query.
    pub fn handle_get_settings(&self) -> (r: WorkerResponse)
        ensures
            r == WorkerResponse::GetTerrainSettings(self.settings),
    {
        WorkerResponse::GetTerrainSettings(self.settings)
    }

    /// Drops every cached chunk.
    pub fn handle_empty_cache(&mut self)
        requires
            old(self).wf(),
        ensures
            final(self).wf(),
            final(self).settings == old(self).settings,
            final(self).cache@ == Map::<(int, int), Seq<u16>>::empty(),
            final(self).cache.bound() == old(self).cache.bound(),
    {
        self.cache.clear();
    }

    /// Applies new parameters: the cache is emptied so that no chunk of
    /// the old world survives, and the caller learns whether the noise
    /// fields must be re-derived from the new seed.
    pub fn handle_set_settings(&mut self, new: TerrainParams) -> (r: (bool, WorkerResponse))
        requires
            old(self).wf(),
        ensures
            final(self).wf(),
            final(self).settings == new,
            final(self).cache@ == Map::<(int, int), Seq<u16>>::empty(),
            final(self).cache.bound() == old(self).cache.bound(),
            r.0 == (old(self).settings.seed != new.seed),
            r.1 == WorkerResponse::TerrainSettingsSet,
    {
        let reseed = self.settings.needs_reseed(&new);
        self.settings = new;
        self.cache.clear();
        (reseed, WorkerResponse::TerrainSettingsSet)
    }

    /// The cache step of the hot path: the chunk at `pos`, promoted, if
    /// the cache holds one.
    pub fn lookup_cached(&mut self, pos: &ChunkPos) -> (r: Option<Chunk>)
        requires
            old(self).wf(),
        ensures
            final(self).wf(),
            final(self).settings == old(self).settings,
            final(self).cache@ == old(self).cache@,
            final(self).cache.bound() == old(self).cache.bound(),
            match r {
                Some(ch) => {
                    &&& ch.wf()
                    &&& old(self).cache@.contains_key(pos.key())
                    &&& ch@ == old(self).cache@[pos.key()]
                },
                None => !old(self).cache@.contains_key(pos.key()),
            },
    {
        self.cache.get(pos)
    }

    /// The store step of the hot path: materialises the chunk at `pos`
    /// from a loaded region — one whose parameters matched — and caches
    /// it.  Nothing comes back if the region has no chunk there.
    pub fn resolve_saved(&mut self, pos: &ChunkPos, region: &Region) -> (r: Option<Chunk>)
        requires
            old(self).wf(),
            region.wf(),
            region.settings == old(self).settings,
        ensures
            final(self).wf(),
            final(self).settings == old(self).settings,
            final(self).cache.bound() == old(self).cache.bound(),
            match r {
                Some(ch) => {
                    &&& ch.wf()
                    &&& exists|i: int|
                        {
                            &&& 0 <= i < region.chunks@.len()
                            &&& (#[trigger] region.chunks@[i]).pos == (pos.x, pos.z)
                            &&& ch@ == apply_blocks(
                                all_air(),
                                region.chunks@[i].blocks@,
                                region.chunks@[i].blocks@.len() as int,
                            )
                        }
                    &&& final(self).cache@.contains_key(pos.key())
                    &&& final(self).cache@[pos.key()] == ch@
                },
                None => {
                    &&& !Region::spec_has_chunk(region.chunks@, pos.x as int, pos.z as int)
                    &&& final(self).cache@ == old(self).cache@
                },
            },
    {
        match region.chunk(*pos) {
            Some(sc) => {
                proof {
                    let i = choose|i: int|
                        0 <= i < region.chunks@.len() && *sc == #[trigger] region.chunks@[i]
                            && sc.pos.0 == pos.x && sc.pos.1 == pos.z;
                    assert(region.chunks@[i].wf());
                }
                let ch = Chunk::from_save(sc);
                self.cache.insert(pos, &ch);
                Some(ch)
            },
            None => None,
        }
    }

    /// The generation step of the hot path: computes the chunk at `pos`
    /// from the parameters in force and the noise sheet sampled for it,
    /// and caches it.  The host persists it afterwards; a failure to
    /// persist is logged and never surfaces here.
    pub fn resolve_generated(&mut self, pos: &ChunkPos, noise: &Vec<ColumnNoise>) -> (r: Chunk)
        requires
            old(self).wf(),
            noise@.len() == 256,
            forall|i: int| 0 <= i < 256 ==> (#[trigger] noise@[i]).wf(),
        ensures
            final(self).wf(),
            final(self).settings == old(self).settings,
            final(self).cache.bound() == old(self).cache.bound(),
            r.wf(),
            generated_by(old(self).settings, noise@, r@),
            final(self).cache@.contains_key(pos.key()),
            final(self).cache@[pos.key()] == r@,
    {
        let ch = gen_chunk(&self.settings, noise);
        self.cache.insert(pos, &ch);
        ch
    }
}

} // verus!
