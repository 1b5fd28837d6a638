//! End-to-end scenarios: the real gradient-noise sampler feeding the
//! verified generator, persistence and scheduler.

use noise::{NoiseFn, SuperSimplex};
use worldgen::block::{AIR, GRASS_BLOCK, STONE, WATER};
use worldgen::cache::ChunkCache;
use worldgen::chunk::Chunk;
use worldgen::params::{FbmParams, TerrainParams};
use worldgen::pos::ChunkPos;
use worldgen::pregen::{pregen_positions, spawn_height, validate_pregen};
use worldgen::store::{load_region, save_chunk_to_region, StoreError};
use worldgen::codec::{decode_region, encode_region};
use worldgen::save::Region;
use worldgen::pos::RegionPos;
use worldgen::terrain::{gen_chunk, ColumnNoise};
use worldgen::worker::ChunkWorker;

struct Fields {
    density: SuperSimplex,
    hilly: SuperSimplex,
    stone: SuperSimplex,
    gravel: SuperSimplex,
    grass: SuperSimplex,
}

fn fields_from(seed: u32) -> Fields {
    Fields {
        density: SuperSimplex::new(seed),
        hilly: SuperSimplex::new(seed.wrapping_add(1)),
        stone: SuperSimplex::new(seed.wrapping_add(2)),
        gravel: SuperSimplex::new(seed.wrapping_add(3)),
        grass: SuperSimplex::new(seed.wrapping_add(4)),
    }
}

fn noise01(n: &SuperSimplex, p: [f64; 3]) -> f64 {
    (n.get(p) + 1.0) / 2.0
}

fn scale(p: [f64; 3], s: f64) -> [f64; 3] {
    [p[0] / s, p[1] / s, p[2] / s]
}

fn fbm(n: &SuperSimplex, p: [f64; 3], octaves: u32, lacunarity: f64, persistence: f64) -> f64 {
    let mut freq = 1.0;
    let mut amp = 1.0;
    let mut amp_sum = 0.0;
    let mut sum = 0.0;
    for _ in 0..octaves {
        let v = noise01(n, [p[0] * freq, p[1] * freq, p[2] * freq]);
        sum += v * amp;
        amp_sum += amp;
        freq *= lacunarity;
        amp *= persistence;
    }
    sum / amp_sum
}

fn fbm_of(n: &SuperSimplex, p: [f64; 3], f: &FbmParams) -> f64 {
    fbm(
        n,
        scale(p, f64::from_bits(f.point_scaling)),
        f.octaves,
        f64::from_bits(f.lacunarity),
        f64::from_bits(f.persistence),
    )
}

fn lerp(a: f64, b: f64, t: f64) -> f64 {
    a * (1.0 - t) + b * t
}

fn lerpstep(edge0: f64, edge1: f64, x: f64) -> f64 {
    if x <= edge0 {
        0.0
    } else if x >= edge1 {
        1.0
    } else {
        (x - edge0) / (edge1 - edge0)
    }
}

fn has_terrain_at(fields: &Fields, p: [f64; 3]) -> bool {
    let hilly = lerp(0.1, 1.0, noise01(&fields.hilly, scale(p, 400.0))).powi(2);
    let lower = 64.0 + 100.0 * hilly;
    let upper = lower + 100.0 * hilly;
    if p[1] <= lower {
        return true;
    }
    if p[1] >= upper {
        return false;
    }
    let density = 1.0 - lerpstep(lower, upper, p[1]);
    let n = fbm(&fields.density, scale(p, 100.0), 4, 2.0, 0.5);
    n < density
}

fn column_noise(
    params: &TerrainParams,
    fields: &Fields,
    scratch: &mut Chunk,
    wx: i32,
    wz: i32,
) -> ColumnNoise {
    let mut terrain = Vec::new();
    let mut depth = vec![0u8; 384];
    let mut gravel_height = vec![0i32; 384];
    let mut sand_height = vec![0i32; 384];
    let mut deco = vec![0u8; 384];
    for y in 0..384i32 {
        let p = [wx as f64, y as f64, wz as f64];
        terrain.push(has_terrain_at(fields, p));
    }
    // The generator reads heights and depth only at terrain cells, and
    // the decoration density only where a plant could grow; the sampler
    // is as lazy as the generator.
    for y in 0..384usize {
        if terrain[y] {
            let p = [wx as f64, y as f64, wz as f64];
            let dn =
                noise01(&fields.stone, scale(p, f64::from_bits(params.stone_point_scaling)));
            depth[y] = (dn * 5.0).round() as u8;
            let gravel_fbm = fbm_of(&fields.gravel, p, &params.gravel_height);
            let gh = 119 - (gravel_fbm * 6.0).floor() as i32;
            gravel_height[y] = gh;
            let sand_fbm = fbm_of(&fields.gravel, p, &params.sand_height);
            sand_height[y] = gh + params.sand_offset + (sand_fbm * 6.0).floor() as i32;
        }
    }
    let mut cn = ColumnNoise { terrain, depth, gravel_height, sand_height, deco: vec![0u8; 384] };
    worldgen::terrain::gen_block(params, &cn, scratch, 0, 0);
    for y in 1..384usize {
        let here = scratch.block_state(0, y, 0);
        let below = scratch.block_state(0, y - 1, 0);
        if (here == AIR && below == GRASS_BLOCK)
            || (here == worldgen::block::WATER && below == worldgen::block::GRAVEL)
        {
            let p = [wx as f64, y as f64, wz as f64];
            let d = fbm(&fields.grass, scale(p, 5.0), 4, 2.0, 0.7);
            deco[y] = if d > 0.7 {
                2
            } else if d > 0.55 {
                1
            } else {
                0
            };
        }
    }
    cn.deco = deco;
    cn
}

fn chunk_noise(params: &TerrainParams, fields: &Fields, pos: &ChunkPos) -> Vec<ColumnNoise> {
    let mut out = Vec::new();
    let mut scratch = Chunk::new();
    for z in 0..16i32 {
        for x in 0..16i32 {
            out.push(column_noise(params, fields, &mut scratch, pos.x * 16 + x, pos.z * 16 + z));
        }
    }
    out
}

fn generate(params: &TerrainParams, fields: &Fields, pos: &ChunkPos) -> Chunk {
    let noise = chunk_noise(params, fields, pos);
    gen_chunk(params, &noise)
}

fn default_params(seed: u32) -> TerrainParams {
    let mut p = TerrainParams::default_with_seed(seed);
    p.stone_point_scaling = 15.0f64.to_bits();
    p.sand_offset = 5;
    p
}

#[test]
fn pregen_baseline() {
    // seed 1, square -2..=2, cache 64, every flag on.
    let params = default_params(1);
    let fields = fields_from(1);
    assert!(validate_pregen(-2, 2, 64).is_ok());
    let positions = pregen_positions(-2, 2);
    assert_eq!(positions.len(), 25);
    let mut chunks: Vec<(ChunkPos, Chunk)> = Vec::new();
    for pos in &positions {
        chunks.push((*pos, generate(&params, &fields, pos)));
    }
    let mut cache = ChunkCache::new(64);
    worldgen::pregen::prime_cache(&mut cache, &chunks);
    assert_eq!(cache.len(), 25);
    let origin = ChunkPos::new(0, 0);
    let cached = cache.get(&origin);
    assert!(cached.is_some());
    // The top of the spawn column is above every terrain bound: air.
    let c = cached.unwrap();
    assert_eq!(c.block_state(0, 383, 0), AIR);
}

#[test]
fn spawn_selection() {
    let params = default_params(1);
    let fields = fields_from(1);
    let origin = ChunkPos::new(0, 0);
    let c = generate(&params, &fields, &origin);
    // Expected: first non-air height scanning down from the top, less 50.
    let mut expect = None;
    let mut y = 383usize;
    loop {
        if c.block_state(0, y, 0) != AIR {
            if y > 0 {
                expect = Some(y as i32 - 50);
            }
            break;
        }
        if y == 0 {
            break;
        }
        y -= 1;
    }
    assert!(expect.is_some());
    assert_eq!(spawn_height(&c), expect);
}

#[test]
fn seed_locality_and_reconfig_invalidates() {
    let p1 = default_params(1);
    let p2 = default_params(2);
    let origin = ChunkPos::new(0, 0);
    let c1 = generate(&p1, &fields_from(1), &origin);
    // Persist the chunk under the first parameter set.
    let mut region = worldgen::store::empty_region(RegionPos { x: 0, z: 0 }, &p1);
    save_chunk_to_region(&mut region, &c1, &origin);
    let bytes = encode_region(&region);

    // Apply new parameters to a worker: the cache is emptied.
    let mut w = ChunkWorker::new(p1, 8);
    let noise1 = chunk_noise(&p1, &fields_from(1), &origin);
    w.resolve_generated(&origin, &noise1);
    assert!(w.lookup_cached(&origin).is_some());
    let (reseed, _) = w.handle_set_settings(p2);
    assert!(reseed);
    assert!(w.lookup_cached(&origin).is_none());

    // The old region file no longer matches.
    match load_region(&bytes, &p2) {
        Err(StoreError::ParamsMismatch) => {}
        _ => panic!("a region saved under other parameters must be refused"),
    }

    // Regenerating with the new seed gives a different chunk somewhere,
    // and a re-request after the reconfiguration serves exactly the
    // chunk of the new parameters.
    let c2 = generate(&p2, &fields_from(2), &origin);
    assert!(c1 != c2);
    let noise2 = chunk_noise(&p2, &fields_from(2), &origin);
    let served = w.resolve_generated(&origin, &noise2);
    assert!(served == c2);
}

#[test]
fn crash_safe_persistence() {
    let params = default_params(7);
    let fields = fields_from(7);
    let pos = ChunkPos::new(3, 3);
    let c = generate(&params, &fields, &pos);
    let rpos = worldgen::pos::chunkpos_to_regionpos(&pos);
    let mut region = worldgen::store::empty_region(rpos, &params);
    save_chunk_to_region(&mut region, &c, &pos);
    let bytes = encode_region(&region);

    // "Restart": everything is rebuilt from the bytes alone.
    let loaded = match load_region(&bytes, &params) {
        Ok(r) => r,
        Err(_) => panic!("the region's own bytes must load back"),
    };
    let sc = loaded.chunk(pos).expect("the saved chunk is in its region");
    let c2 = Chunk::from_save(sc);
    assert!(c2 == c);

    // And a decode of the raw bytes finds the same region.
    let again: Region = decode_region(&bytes).expect("encodings decode");
    assert_eq!(again.settings, params);
}

#[test]
fn flags_off_trivial_world() {
    let mut params = default_params(1);
    params.enable_stone = false;
    params.enable_grass = false;
    params.enable_gravel = false;
    params.enable_sand = false;
    params.enable_water = false;
    let fields = fields_from(1);
    let c = generate(&params, &fields, &ChunkPos::new(0, 0));
    for x in 0..16 {
        for z in 0..16 {
            for y in 0..384 {
                assert_eq!(c.block_state(x, y, z), AIR);
            }
        }
    }
}

#[test]
fn generated_terrain_has_expected_layers() {
    // Sanity on the block rules: with everything enabled the spawn
    // column holds stone below the surface and water or air above it.
    let params = default_params(1);
    let fields = fields_from(1);
    let c = generate(&params, &fields, &ChunkPos::new(0, 0));
    // Deep underground is terrain everywhere (y well below the lower
    // bound of 64), past any surface soil: stone.
    assert_eq!(c.block_state(0, 0, 0), STONE);
    let mut seen_surface = false;
    for y in 0..384 {
        let b = c.block_state(0, y, 0);
        if b == GRASS_BLOCK || b == worldgen::block::SAND || b == worldgen::block::GRAVEL {
            seen_surface = true;
        }
        if b == WATER {
            assert!((y as i32) < 120);
        }
    }
    assert!(seen_surface);
}

#[test]
fn generation_is_deterministic() {
    // The same parameters and the same samples give the same chunk,
    // cell for cell, across repeated calls.
    let params = default_params(11);
    let fields = fields_from(11);
    let pos = ChunkPos::new(-2, 5);
    let noise = chunk_noise(&params, &fields, &pos);
    let c1 = gen_chunk(&params, &noise);
    let c2 = gen_chunk(&params, &noise);
    assert!(c1 == c2);
    // And resampling from the same seed changes nothing either.
    let c3 = generate(&params, &fields_from(11), &pos);
    assert!(c1 == c3);
}
