//! Region store semantics: what loading and saving mean, given the
//! bytes of a region file.  Reading and writing the files themselves is
//! the host's job; it hands the bytes in and carries the bytes out.

use vstd::prelude::*;
use crate::chunk::Chunk;
use crate::codec::{decode_region, encode_region, spec_decode_region, spec_encode_region};
use crate::params::TerrainParams;
use crate::pos::{ChunkPos, RegionPos};
use crate::save::{chunk_blocks, Region, SaveChunk, SaveChunkV};

verus! {

/// Why a region file's bytes did not yield a usable region.
#[derive(Clone, Copy, Debug, PartialEq, Eq, Structural)]
pub enum StoreError {
    /// The bytes are no region's encoding.
    Corrupt,
    /// The bytes encode a region, but one produced by other parameters;
    /// its chunks must not be served.
    ParamsMismatch,
}

/// Reads a region from file bytes and accepts it only if it was
/// produced by the parameters in force.  `Corrupt` and `ParamsMismatch`
/// are both treated by callers as "no saved chunk": generation proceeds.
pub fn load_region(bytes: &Vec<u8>, current: &TerrainParams) -> (r: Result<Region, StoreError>)
    ensures
        match r {
            Ok(reg) => spec_decode_region(bytes@) == Some(reg@) && reg.settings == *current
                && reg.wf(),
            Err(e) => match e {
                StoreError::Corrupt => spec_decode_region(bytes@) is None,
                StoreError::ParamsMismatch => spec_decode_region(bytes@) matches Some(rv)
                    && rv.settings != *current,
            },
        },
{
    match decode_region(bytes) {
        None => Err(StoreError::Corrupt),
        Some(reg) => {
            if reg.settings == *current {
                Ok(reg)
            } else {
                Err(StoreError::ParamsMismatch)
            }
        },
    }
}

/// The saved form of `chunk` at `pos`: what an upsert writes into the
/// region's chunk list.
pub open spec fn is_saved_form(sc: SaveChunk, pos: ChunkPos, c: Seq<u16>) -> bool {
    sc.pos == (pos.x, pos.z) && sc.blocks@ == chunk_blocks(c)
}

/// Puts a freshly generated chunk into its region: the saved form of
/// the chunk replaces the entry at its position, or joins the region if
/// none is there.  Everything else in the region stays put, entry for
/// entry.
pub fn save_chunk_to_region(region: &mut Region, chunk: &Chunk, pos: &ChunkPos)
    requires
        old(region).wf(),
        chunk.wf(),
    ensures
        final(region).wf(),
        final(region).pos == old(region).pos,
        final(region).settings == old(region).settings,
        Region::spec_has_chunk(old(region).chunks@, pos.x as int, pos.z as int) ==> exists|i: int|
            {
                &&& 0 <= i < old(region).chunks@.len()
                &&& (#[trigger] old(region).chunks@[i]).pos == (pos.x, pos.z)
                &&& final(region).chunks@ == old(region).chunks@.update(
                    i,
                    final(region).chunks@[i],
                )
                &&& is_saved_form(final(region).chunks@[i], *pos, chunk@)
            },
        !Region::spec_has_chunk(old(region).chunks@, pos.x as int, pos.z as int) ==> {
            &&& final(region).chunks@.len() == old(region).chunks@.len() + 1
            &&& final(region).chunks@ == old(region).chunks@.push(
                final(region).chunks@.last(),
            )
            &&& is_saved_form(final(region).chunks@.last(), *pos, chunk@)
        },
{
    let save = SaveChunk::from_chunk(chunk, pos);
    region.upsert_chunk(save);
    proof {
        if Region::spec_has_chunk(old(region).chunks@, pos.x as int, pos.z as int) {
            let i = choose|i: int|
                {
                    &&& 0 <= i < old(region).chunks@.len()
                    &&& (#[trigger] old(region).chunks@[i]).pos == save.pos
                    &&& region.chunks@ == old(region).chunks@.update(i, save)
                };
            assert(region.chunks@[i] == save);
            assert(region.chunks@ == old(region).chunks@.update(i, region.chunks@[i]));
        } else {
            assert(region.chunks@[old(region).chunks@.len() as int] == save);
            assert(region.chunks@.last() == save);
        }
    }
}

/// A region with nothing in it yet, tagged with the parameters that
/// will produce its chunks.
pub fn empty_region(pos: RegionPos, settings: &TerrainParams) -> (r: Region)
    ensures
        r.wf(),
        r.pos == pos,
        r.settings == *settings,
        r.chunks@.len() == 0,
{
    Region { pos, settings: *settings, chunks: Vec::new() }
}

/// Some region in the list sits at the region position that owns `p`.
pub open spec fn covers(regions: Seq<Region>, p: ChunkPos) -> bool {
    exists|j: int|
        0 <= j < regions.len() && (#[trigger] regions[j]).pos == crate::pos::spec_region_pos_of(p)
}

/// Some region in the list sits at the region position that owns `p`
/// and holds the saved form of the grid `c` at `p`.
pub open spec fn holds_chunk(regions: Seq<Region>, p: ChunkPos, c: Seq<u16>) -> bool {
    exists|j: int, k: int|
        #![trigger regions[j].chunks@[k]]
        {
            &&& 0 <= j < regions.len()
            &&& 0 <= k < regions[j].chunks@.len()
            &&& regions[j].pos == crate::pos::spec_region_pos_of(p)
            &&& regions[j].chunks@[k].pos == (p.x, p.z)
            &&& regions[j].chunks@[k].blocks@ == chunk_blocks(c)
        }
}

/// The saved form of one generated chunk, as a value.
pub open spec fn saved_input(e: (ChunkPos, Chunk)) -> SaveChunkV {
    SaveChunkV { pos: (e.0.x as int, e.0.z as int), blocks: chunk_blocks(e.1@) }
}

/// The saved forms of exactly the inputs owned by the region at `rp`,
/// in input order.
pub open spec fn inputs_of_region(chunks: Seq<(ChunkPos, Chunk)>, rp: RegionPos) -> Seq<
    SaveChunkV,
>
    decreases chunks.len(),
{
    if chunks.len() == 0 {
        Seq::empty()
    } else {
        let rest = inputs_of_region(chunks.drop_last(), rp);
        if crate::pos::spec_region_pos_of(chunks.last().0) == rp {
            rest.push(saved_input(chunks.last()))
        } else {
            rest
        }
    }
}

/// Rebuilds the byte image of a whole set of generated chunks: the
/// chunks are grouped by the region that owns them and each region is
/// written out entire.  There is one region per distinct region
/// position among the inputs, and its chunk list is exactly the saved
/// forms of that region's inputs, in input order.
/// An input owned by `rp` appears, in saved form, in `rp`'s input list.
proof fn lemma_inputs_member(chunks: Seq<(ChunkPos, Chunk)>, rp: RegionPos, t: int)
    requires
        0 <= t < chunks.len(),
        crate::pos::spec_region_pos_of(chunks[t].0) == rp,
    ensures
        exists|k: int|
            0 <= k < inputs_of_region(chunks, rp).len() && #[trigger] inputs_of_region(
                chunks, rp)[k] == saved_input(chunks[t]),
    decreases chunks.len(),
{
    let r = inputs_of_region(chunks, rp);
    if t == chunks.len() - 1 {
        assert(r[r.len() - 1] == saved_input(chunks[t]));
    } else {
        assert(chunks.drop_last()[t] == chunks[t]);
        lemma_inputs_member(chunks.drop_last(), rp, t);
        let k = choose|k: int|
            0 <= k < inputs_of_region(chunks.drop_last(), rp).len() && #[trigger] inputs_of_region(
                chunks.drop_last(), rp)[k] == saved_input(chunks[t]);
        assert(r[k] == saved_input(chunks[t]));
    }
}

/// The region at index `j` sits at a position that some input owns.
pub open spec fn region_owned(regions: Seq<Region>, chunks: Seq<(ChunkPos, Chunk)>, j: int) -> bool {
    exists|i: int|
        0 <= i < chunks.len() && regions[j].pos == crate::pos::spec_region_pos_of(
            (#[trigger] chunks[i]).0)
}

/// A region list that covers every input and whose regions hold
/// exactly their inputs holds every input's saved form.
proof fn lemma_regions_complete(chunks: Seq<(ChunkPos, Chunk)>, regions: Seq<Region>)
    requires
        forall|t: int| 0 <= t < chunks.len() ==> covers(regions, (#[trigger] chunks[t]).0),
        forall|j: int|
            0 <= j < regions.len() ==> (#[trigger] regions[j]).chunks@.map_values(
                |sc: SaveChunk| sc@) == inputs_of_region(chunks, regions[j].pos),
    ensures
        forall|t: int|
            0 <= t < chunks.len() ==> holds_chunk(regions, (#[trigger] chunks[t]).0, chunks[t].1@),
{
    assert forall|t: int|
        0 <= t < chunks.len() implies holds_chunk(
        regions, (#[trigger] chunks[t]).0, chunks[t].1@) by {
        assert(covers(regions, chunks[t].0));
        let rp = crate::pos::spec_region_pos_of(chunks[t].0);
        let j = choose|j: int| 0 <= j < regions.len() && (#[trigger] regions[j]).pos == rp;
        lemma_inputs_member(chunks, rp, t);
        let k = choose|k: int|
            0 <= k < inputs_of_region(chunks, rp).len() && #[trigger] inputs_of_region(
                chunks, rp)[k] == saved_input(chunks[t]);
        let m = regions[j].chunks@.map_values(|sc: SaveChunk| sc@);
        assert(m[k] == saved_input(chunks[t]));
        assert(regions[j].chunks@[k]@ == saved_input(chunks[t]));
        assert(regions[j].chunks@[k].pos == (chunks[t].0.x, chunks[t].0.z));
        assert(regions[j].chunks@[k].blocks@ == chunk_blocks(chunks[t].1@));
    }
}

pub fn overwrite_regions(chunks: &Vec<(ChunkPos, Chunk)>, settings: &TerrainParams) -> (regions:
    Vec<Region>)
    requires
        forall|i: int| 0 <= i < chunks@.len() ==> (#[trigger] chunks@[i]).1.wf(),
    ensures
        forall|j: int|
            0 <= j < regions@.len() ==> (#[trigger] regions@[j]).wf() && regions@[j].settings
                == *settings,
        forall|i: int|
            0 <= i < chunks@.len() ==> holds_chunk(
                regions@, (#[trigger] chunks@[i]).0, chunks@[i].1@),
        forall|j1: int, j2: int|
            0 <= j1 < j2 < regions@.len() ==> (#[trigger] regions@[j1]).pos != (
            #[trigger] regions@[j2]).pos,
        forall|j: int|
            0 <= j < regions@.len() ==> (#[trigger] regions@[j]).chunks@.map_values(
                |sc: SaveChunk| sc@) == inputs_of_region(chunks@, regions@[j].pos),
        forall|j: int| 0 <= j < regions@.len() ==> #[trigger] region_owned(regions@, chunks@, j),
{
    let mut regions: Vec<Region> = Vec::new();
    let mut i: usize = 0;
    while i < chunks.len()
        invariant
            i <= chunks@.len(),
            forall|t: int| 0 <= t < chunks@.len() ==> (#[trigger] chunks@[t]).1.wf(),
            forall|j: int|
                0 <= j < regions@.len() ==> (#[trigger] regions@[j]).wf() && regions@[j].settings
                    == *settings,
            forall|t: int| 0 <= t < i ==> covers(regions@, (#[trigger] chunks@[t]).0),
            forall|j1: int, j2: int|
                0 <= j1 < j2 < regions@.len() ==> (#[trigger] regions@[j1]).pos != (
                #[trigger] regions@[j2]).pos,
            forall|j: int|
                0 <= j < regions@.len() ==> (#[trigger] regions@[j]).chunks@.map_values(
                    |sc: SaveChunk| sc@) == inputs_of_region(chunks@, regions@[j].pos),
            forall|j: int|
                0 <= j < regions@.len() ==> #[trigger] region_owned(regions@, chunks@, j),
        decreases chunks@.len() - i,
    {
        let pos = chunks[i].0;
        let rpos = crate::pos::chunkpos_to_regionpos(&pos);
        let mut have: bool = false;
        let mut j: usize = 0;
        while j < regions.len()
            invariant
                j <= regions@.len(),
                rpos == crate::pos::spec_region_pos_of(chunks@[i as int].0),
                i < chunks@.len(),
                have ==> exists|t: int|
                    0 <= t < regions@.len() && (#[trigger] regions@[t]).pos == rpos,
                !have ==> forall|t: int| 0 <= t < j ==> (#[trigger] regions@[t]).pos != rpos,
            ensures
                have ==> exists|t: int|
                    0 <= t < regions@.len() && (#[trigger] regions@[t]).pos == rpos,
                !have ==> forall|t: int|
                    0 <= t < regions@.len() ==> (#[trigger] regions@[t]).pos != rpos,
            decreases regions@.len() - j,
        {
            if regions[j].pos.x == rpos.x && regions[j].pos.z == rpos.z {
                have = true;
                break;
            }
            j = j + 1;
        }
        if !have {
            let reg = gather_region(chunks, rpos, settings);
            let ghost pre = regions@;
            regions.push(reg);
            proof {
                let nj = pre.len() as int;
                assert(regions@[nj] == reg);
                assert forall|t: int|
                    0 <= t < i + 1 implies covers(regions@, (#[trigger] chunks@[t]).0) by {
                    if t < i {
                        let j = choose|j: int|
                            0 <= j < pre.len() && (#[trigger] pre[j]).pos
                                == crate::pos::spec_region_pos_of(chunks@[t].0);
                        assert(regions@[j] == pre[j]);
                    } else {
                        assert(regions@[nj].pos == rpos);
                    }
                }
                assert forall|j1: int, j2: int|
                    0 <= j1 < j2 < regions@.len() implies (#[trigger] regions@[j1]).pos != (
                #[trigger] regions@[j2]).pos by {
                    if j2 == nj {
                        assert(regions@[j1] == pre[j1]);
                        assert(pre[j1].pos != rpos);
                    } else {
                        assert(regions@[j1] == pre[j1] && regions@[j2] == pre[j2]);
                    }
                }
                assert forall|j: int|
                    0 <= j < regions@.len() implies (#[trigger] regions@[j]).chunks@.map_values(
                    |sc: SaveChunk| sc@) == inputs_of_region(chunks@, regions@[j].pos) by {
                    if j != nj {
                        assert(regions@[j] == pre[j]);
                    }
                }
                assert forall|j: int|
                    0 <= j < regions@.len() implies #[trigger] region_owned(
                    regions@, chunks@, j) by {
                    if j == nj {
                        assert(regions@[j].pos == crate::pos::spec_region_pos_of(
                            chunks@[i as int].0));
                    } else {
                        assert(regions@[j] == pre[j]);
                        assert(region_owned(pre, chunks@, j));
                        let i2 = choose|i2: int|
                            0 <= i2 < chunks@.len() && pre[j].pos
                                == crate::pos::spec_region_pos_of((#[trigger] chunks@[i2]).0);
                        assert(regions@[j].pos == crate::pos::spec_region_pos_of(
                            chunks@[i2].0));
                    }
                }
            }
        } else {
            proof {
                let j2 = choose|t: int|
                    0 <= t < regions@.len() && (#[trigger] regions@[t]).pos == rpos;
                assert(covers(regions@, chunks@[i as int].0));
            }
        }
        i = i + 1;
    }
    proof {
        lemma_regions_complete(chunks@, regions@);
    }
    regions
}

/// Collects, in input order, the saved forms of exactly the inputs
/// owned by the region at `rpos`.
fn gather_region(chunks: &Vec<(ChunkPos, Chunk)>, rpos: RegionPos, settings: &TerrainParams) -> (
    reg: Region)
    requires
        forall|u: int| 0 <= u < chunks@.len() ==> (#[trigger] chunks@[u]).1.wf(),
    ensures
        reg.wf(),
        reg.pos == rpos,
        reg.settings == *settings,
        reg.chunks@.map_values(|sc: SaveChunk| sc@) == inputs_of_region(chunks@, rpos),
        forall|u: int|
            0 <= u < chunks@.len() && crate::pos::spec_region_pos_of((#[trigger] chunks@[u]).0)
                == rpos ==> exists|k: int|
                #![trigger reg.chunks@[k]]
                {
                    &&& 0 <= k < reg.chunks@.len()
                    &&& reg.chunks@[k].pos == (chunks@[u].0.x, chunks@[u].0.z)
                    &&& reg.chunks@[k].blocks@ == chunk_blocks(chunks@[u].1@)
                },
{
    let mut reg = empty_region(rpos, settings);
    proof {
        assert(chunks@.take(0) =~= Seq::<(ChunkPos, Chunk)>::empty());
        assert(reg.chunks@.map_values(|sc: SaveChunk| sc@) =~= Seq::<SaveChunkV>::empty());
    }
    let mut t: usize = 0;
    while t < chunks.len()
        invariant
            t <= chunks@.len(),
            forall|u: int| 0 <= u < chunks@.len() ==> (#[trigger] chunks@[u]).1.wf(),
            reg.wf(),
            reg.pos == rpos,
            reg.settings == *settings,
            forall|u: int|
                0 <= u < t && crate::pos::spec_region_pos_of((#[trigger] chunks@[u]).0)
                    == rpos ==> exists|k: int|
                    #![trigger reg.chunks@[k]]
                    {
                        &&& 0 <= k < reg.chunks@.len()
                        &&& reg.chunks@[k].pos == (chunks@[u].0.x, chunks@[u].0.z)
                        &&& reg.chunks@[k].blocks@ == chunk_blocks(chunks@[u].1@)
                    },
            reg.chunks@.map_values(|sc: SaveChunk| sc@) == inputs_of_region(
                chunks@.take(t as int), rpos),
        decreases chunks@.len() - t,
    {
        proof {
            assert(chunks@.take(t as int + 1).drop_last() =~= chunks@.take(t as int));
            assert(chunks@.take(t as int + 1).last() == chunks@[t as int]);
        }
        let cpos = chunks[t].0;
        let crpos = crate::pos::chunkpos_to_regionpos(&cpos);
        if crpos.x == rpos.x && crpos.z == rpos.z {
            let ghost prec = reg.chunks@;
            let save = SaveChunk::from_chunk(&chunks[t].1, &cpos);
            reg.chunks.push(save);
            proof {
                assert forall|u: int|
                    0 <= u < t + 1 && crate::pos::spec_region_pos_of(
                        (#[trigger] chunks@[u]).0) == rpos implies exists|k: int|
                        #![trigger reg.chunks@[k]]
                        {
                            &&& 0 <= k < reg.chunks@.len()
                            &&& reg.chunks@[k].pos == (chunks@[u].0.x, chunks@[u].0.z)
                            &&& reg.chunks@[k].blocks@ == chunk_blocks(chunks@[u].1@)
                        } by {
                    if u < t {
                        let k = choose|k: int|
                            #![trigger prec[k]]
                            {
                                &&& 0 <= k < prec.len()
                                &&& prec[k].pos == (chunks@[u].0.x, chunks@[u].0.z)
                                &&& prec[k].blocks@ == chunk_blocks(chunks@[u].1@)
                            };
                        assert(reg.chunks@[k] == prec[k]);
                    } else {
                        assert(reg.chunks@[prec.len() as int] == save);
                    }
                }
                assert(save@ == saved_input(chunks@[t as int]));
                assert(reg.chunks@.map_values(|sc: SaveChunk| sc@) =~= prec.map_values(
                    |sc: SaveChunk| sc@).push(save@));
                assert(reg.chunks@.map_values(|sc: SaveChunk| sc@) == inputs_of_region(
                    chunks@.take(t as int + 1), rpos));
            }
        } else {
            proof {
                assert(crate::pos::spec_region_pos_of(chunks@[t as int].0) != rpos);
                assert(reg.chunks@.map_values(|sc: SaveChunk| sc@) == inputs_of_region(
                    chunks@.take(t as int + 1), rpos));
            }
        }
        t = t + 1;
    }
    proof {
        assert(chunks@.take(chunks@.len() as int) =~= chunks@);
    }
    reg
}

} // verus!
