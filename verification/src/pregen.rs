//! The pregeneration driver: the square of chunks generated at
//! startup, the cache priming, and the spawn-height scan.

use vstd::prelude::*;
use crate::block::AIR;
use crate::cache::ChunkCache;
use crate::chunk::Chunk;
use crate::pos::ChunkPos;

verus! {

/// Why the core refused to start.
#[derive(Clone, Copy, Debug, PartialEq, Eq, Structural)]
pub enum ConfigError {
    /// The pregeneration square holds more chunks than the cache can.
    PregenExceedsCache,
}

impl ConfigError {
    /// A line for the startup log.
    pub fn message(&self) -> (r: &'static str)
        ensures
            r@ =~= "the pregenerated square exceeds the chunk cache size"@,
    {
        "the pregenerated square exceeds the chunk cache size"
    }
}

/// Chunks in the square `[a ..= b]` x `[a ..= b]`.
pub open spec fn spec_pregen_count(a: int, b: int) -> int {
    if b < a {
        0
    } else {
        (b - a + 1) * (b - a + 1)
    }
}

/// The startup check: the pregenerated square must fit in the cache,
/// else the core refuses to start.
pub fn validate_pregen(a: i32, b: i32, cache_capacity: usize) -> (r: Result<(), ConfigError>)
    ensures
        r is Ok <==> spec_pregen_count(a as int, b as int) <= cache_capacity,
{
    if b < a {
        return Ok(());
    }
    let side: u128 = ((b as i64) - (a as i64) + 1) as u128;
    proof {
        assert(side * side == spec_pregen_count(a as int, b as int) && side * side
            < 0x1_0000_0000_0000_0000_0000_0000_0000_0000) by (nonlinear_arith)
            requires
                1 <= side <= 0x1_0000_0000,
                side == (b as int) - (a as int) + 1,
                spec_pregen_count(a as int, b as int) == ((b as int) - (a as int) + 1) * ((
                b as int) - (a as int) + 1),
        ;
    }
    if side * side <= cache_capacity as u128 {
        Ok(())
    } else {
        Err(ConfigError::PregenExceedsCache)
    }
}

/// Some position in the list is the cell `(x, z)`.
pub open spec fn has_cell(s: Seq<ChunkPos>, x: int, z: int) -> bool {
    exists|i: int| 0 <= i < s.len() && (#[trigger] s[i]).x == x && s[i].z == z
}

/// The positions of the pregenerated square: every cell of
/// `[a ..= b] x [a ..= b]`, row by row.
pub fn pregen_positions(a: i32, b: i32) -> (r: Vec<ChunkPos>)
    requires
        spec_pregen_count(a as int, b as int) <= usize::MAX,
    ensures
        r@.len() == spec_pregen_count(a as int, b as int),
        forall|i: int, j: int|
            0 <= i < j < r@.len() ==> (#[trigger] r@[i]).key() != (#[trigger] r@[j]).key(),
        forall|i: int|
            0 <= i < r@.len() ==> a <= (#[trigger] r@[i]).x <= b && a <= r@[i].z <= b,
        forall|x: int, z: int|
            a <= x <= b && a <= z <= b ==> #[trigger] has_cell(r@, x, z),
{
    let mut out: Vec<ChunkPos> = Vec::new();
    if b < a {
        return out;
    }
    let ghost side = (b as int) - (a as int) + 1;
    proof {
        assert(side * side == spec_pregen_count(a as int, b as int)) by (nonlinear_arith)
            requires
                side == (b as int) - (a as int) + 1,
                b >= a,
                spec_pregen_count(a as int, b as int) == ((b as int) - (a as int) + 1) * ((
                b as int) - (a as int) + 1),
        ;
        assert(side <= side * side) by (nonlinear_arith)
            requires
                side >= 1,
        ;
    }
    let mut x: i64 = a as i64;
    loop
        invariant
            a <= x,
            x <= b + 1,
            b >= a,
            side == (b as int) - (a as int) + 1,
            side * side == spec_pregen_count(a as int, b as int),
            spec_pregen_count(a as int, b as int) <= usize::MAX,
            out@.len() == ((x as int) - (a as int)) * side,
            forall|i: int|
                0 <= i < out@.len() ==> a <= (#[trigger] out@[i]).x < x && a <= out@[i].z <= b,
            forall|i: int, j: int|
                0 <= i < j < out@.len() ==> (#[trigger] out@[i]).key() != (
                #[trigger] out@[j]).key(),
            forall|i: int|
                0 <= i < out@.len() ==> (#[trigger] out@[i]).x == a + i / side && out@[i].z == a
                    + i % side,
        ensures
            x == b + 1,
            out@.len() == ((x as int) - (a as int)) * side,
            forall|i: int|
                0 <= i < out@.len() ==> (#[trigger] out@[i]).x == a + i / side && out@[i].z == a
                    + i % side,
        decreases (b as int) - (x as int) + 1,
    {
        if x > b as i64 {
            break;
        }
        let ghost row_base = out@.len();
        proof {
            assert((((x as int) + 1) - (a as int)) * side == ((x as int) - (a as int)) * side
                + side) by (nonlinear_arith);
            assert(((x as int) - (a as int)) * side + side <= side * side) by (nonlinear_arith)
                requires
                    side == (b as int) - (a as int) + 1,
                    a <= x <= b,
            ;
            assert(0 <= ((x as int) - (a as int)) * side) by (nonlinear_arith)
                requires
                    side >= 1,
                    x >= a,
            ;
        }
        let mut z: i64 = a as i64;
        loop
            invariant
                a <= z,
                z <= b + 1,
                a <= x <= b,
                side == (b as int) - (a as int) + 1,
                spec_pregen_count(a as int, b as int) <= usize::MAX,
                row_base + side <= spec_pregen_count(a as int, b as int),
                spec_pregen_count(a as int, b as int) == side * side,
                out@.len() == row_base + (z as int) - (a as int),
                row_base == ((x as int) - (a as int)) * side,
                forall|i: int|
                    0 <= i < out@.len() ==> (#[trigger] out@[i]).x == a + i / side && out@[i].z
                        == a + i % side,
                forall|i: int|
                    row_base <= i < out@.len() ==> (#[trigger] out@[i]).x == x && a <= out@[i].z
                        < z,
                forall|i: int|
                    0 <= i < row_base ==> a <= (#[trigger] out@[i]).x < x && a <= out@[i].z <= b,
                forall|i: int, j: int|
                    0 <= i < j < out@.len() ==> (#[trigger] out@[i]).key() != (
                    #[trigger] out@[j]).key(),
            ensures
                z == b + 1,
                out@.len() == row_base + side,
                forall|i: int|
                    0 <= i < out@.len() ==> (#[trigger] out@[i]).x == a + i / side && out@[i].z
                        == a + i % side,
                forall|i: int|
                    row_base <= i < out@.len() ==> (#[trigger] out@[i]).x == x && a <= out@[i].z
                        <= b,
                forall|i: int|
                    0 <= i < row_base ==> a <= (#[trigger] out@[i]).x < x && a <= out@[i].z <= b,
                forall|i: int, j: int|
                    0 <= i < j < out@.len() ==> (#[trigger] out@[i]).key() != (
                    #[trigger] out@[j]).key(),
            decreases (b as int) - (z as int) + 1,
        {
            if z > b as i64 {
                break;
            }
            proof {
                vstd::arithmetic::div_mod::lemma_fundamental_div_mod_converse(
                    out@.len() as int, side, (x as int) - (a as int), (z as int) - (a as int));
            }
            out.push(ChunkPos { x: x as i32, z: z as i32 });
            z = z + 1;
        }
        x = x + 1;
    }
    proof {
        assert((((b as int) + 1) - (a as int)) * side == side * side) by (nonlinear_arith)
            requires
                side == (b as int) - (a as int) + 1,
        ;
        assert forall|cx: int, cz: int|
            a <= cx <= b && a <= cz <= b implies #[trigger] has_cell(out@, cx, cz) by {
            let n = (cx - (a as int)) * side + (cz - (a as int));
            assert(0 <= n < side * side) by (nonlinear_arith)
                requires
                    0 <= cx - (a as int) < side,
                    0 <= cz - (a as int) < side,
                    n == (cx - (a as int)) * side + (cz - (a as int)),
            ;
            vstd::arithmetic::div_mod::lemma_fundamental_div_mod_converse(
                n, side, cx - (a as int), cz - (a as int));
            assert(out@[n].x == cx && out@[n].z == cz);
        }
    }
    out
}

/// Fills the cache with the pregenerated chunks.  The square fits by
/// the startup check, so nothing is evicted and every chunk is cached.
pub fn prime_cache(cache: &mut ChunkCache, chunks: &Vec<(ChunkPos, Chunk)>)
    requires
        old(cache).wf(),
        old(cache)@ == Map::<(int, int), Seq<u16>>::empty(),
        chunks@.len() <= old(cache).bound(),
        forall|i: int| 0 <= i < chunks@.len() ==> (#[trigger] chunks@[i]).1.wf(),
        forall|i: int, j: int|
            0 <= i < j < chunks@.len() ==> (#[trigger] chunks@[i]).0.key() != (
            #[trigger] chunks@[j]).0.key(),
    ensures
        final(cache).wf(),
        final(cache)@.len() == chunks@.len(),
        forall|i: int|
            0 <= i < chunks@.len() ==> final(cache)@.contains_key((#[trigger] chunks@[i]).0.key())
                && final(cache)@[chunks@[i].0.key()] == chunks@[i].1@,
{
    let mut i: usize = 0;
    while i < chunks.len()
        invariant
            i <= chunks@.len(),
            cache.wf(),
            cache.bound() == old(cache).bound(),
            chunks@.len() <= old(cache).bound(),
            forall|t: int| 0 <= t < chunks@.len() ==> (#[trigger] chunks@[t]).1.wf(),
            forall|t: int, j: int|
                0 <= t < j < chunks@.len() ==> (#[trigger] chunks@[t]).0.key() != (
                #[trigger] chunks@[j]).0.key(),
            cache@.len() == i,
            forall|t: int|
                0 <= t < i ==> cache@.contains_key((#[trigger] chunks@[t]).0.key()) && cache@[
                chunks@[t].0.key()] == chunks@[t].1@,
            forall|k: (int, int)| #[trigger] cache@.contains_key(k) ==> exists|t: int|
                0 <= t < i && (#[trigger] chunks@[t]).0.key() == k,
        decreases chunks@.len() - i,
    {
        let ghost prev = cache@;
        let pos = chunks[i].0;
        proof {
            if prev.contains_key(pos.key()) {
                let t = choose|t: int|
                    0 <= t < i && (#[trigger] chunks@[t]).0.key() == pos.key();
                assert(false);
            }
        }
        cache.insert(&pos, &chunks[i].1);
        proof {
            assert(cache@ == prev.insert(pos.key(), chunks@[i as int].1@));
            assert(cache@.dom() =~= prev.dom().insert(pos.key()));
            vstd::set::axiom_set_insert_len(prev.dom(), pos.key());
            assert forall|k: (int, int)| #[trigger] cache@.contains_key(k) implies exists|t: int|
                0 <= t < i + 1 && (#[trigger] chunks@[t]).0.key() == k by {
                if k != pos.key() {
                    let t = choose|t: int|
                        0 <= t < i && (#[trigger] chunks@[t]).0.key() == k;
                } else {
                    assert(chunks@[i as int].0.key() == k);
                }
            }
        }
        i = i + 1;
    }
}

/// Where a freshly found surface puts the spawn: the scan walks column
/// `(0, 0)` from the top, stops at the first cell that is not air, and
/// drops fifty blocks.  A surface at the very bottom, or no surface at
/// all, names no spawn.
pub open spec fn spec_spawn_scan(c: Chunk, y: int) -> Option<i32>
    decreases y + 1,
{
    if y < 0 {
        None
    } else if c.spec_block(0, y, 0) != AIR {
        if y == 0 {
            None
        } else {
            Some((y - 50) as i32)
        }
    } else {
        spec_spawn_scan(c, y - 1)
    }
}

/// Scans the spawn column for the surface height.
pub fn spawn_height(chunk: &Chunk) -> (r: Option<i32>)
    requires
        chunk.wf(),
    ensures
        r == spec_spawn_scan(*chunk, 383),
{
    let mut yi: usize = 384;
    while yi > 0
        invariant
            yi <= 384,
            chunk.wf(),
            spec_spawn_scan(*chunk, 383) == spec_spawn_scan(*chunk, yi - 1),
        decreases yi,
    {
        let y = yi - 1;
        let block = chunk.block_state(0, y, 0);
        if block != AIR {
            if y == 0 {
                return None;
            }
            return Some((y as i32) - 50);
        }
        yi = y;
    }
    None
}

} // verus!
