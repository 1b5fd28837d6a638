//! The region codec and the store semantics, on concrete values.

use worldgen::chunk::Chunk;
use worldgen::codec::{decode_region, encode_region};
use worldgen::params::TerrainParams;
use worldgen::pos::{chunkpos_to_regionpos, ChunkPos, RegionPos};
use worldgen::save::{Block, Region, SaveChunk};
use worldgen::pregen::{validate_pregen, ConfigError};
use worldgen::store::{
    empty_region, load_region, overwrite_regions, save_chunk_to_region, StoreError,
};

fn small_chunk() -> Chunk {
    let mut c = Chunk::new();
    c.set_block_state(1, 2, 3, worldgen::block::STONE);
    c.set_block_state(0, 0, 0, worldgen::block::GRAVEL);
    c.set_block_state(15, 383, 15, worldgen::block::GRASS);
    c
}

#[test]
fn region_position_uses_floor_division() {
    assert_eq!(chunkpos_to_regionpos(&ChunkPos::new(0, 0)), RegionPos { x: 0, z: 0 });
    assert_eq!(chunkpos_to_regionpos(&ChunkPos::new(15, 15)), RegionPos { x: 0, z: 0 });
    assert_eq!(chunkpos_to_regionpos(&ChunkPos::new(16, 0)), RegionPos { x: 1, z: 0 });
    assert_eq!(chunkpos_to_regionpos(&ChunkPos::new(-1, -16)), RegionPos { x: -1, z: -1 });
    assert_eq!(chunkpos_to_regionpos(&ChunkPos::new(-17, 31)), RegionPos { x: -2, z: 1 });
}

#[test]
fn region_codec_round_trip() {
    let params = TerrainParams::default_with_seed(42);
    let mut region = empty_region(RegionPos { x: -3, z: 7 }, &params);
    let pos = ChunkPos::new(-41, 115);
    save_chunk_to_region(&mut region, &small_chunk(), &pos);
    let bytes = encode_region(&region);
    let back = decode_region(&bytes).expect("an encoding decodes");
    assert_eq!(back.pos, RegionPos { x: -3, z: 7 });
    assert_eq!(back.settings, params);
    assert_eq!(back.chunks.len(), 1);
    assert_eq!(back.chunks[0].pos, (-41, 115));
    let c2 = Chunk::from_save(&back.chunks[0]);
    assert!(c2 == small_chunk());
}

#[test]
fn decode_refuses_damaged_bytes() {
    let params = TerrainParams::default_with_seed(1);
    let region = empty_region(RegionPos { x: 0, z: 0 }, &params);
    let bytes = encode_region(&region);

    // Ragged length.
    let mut ragged = bytes.clone();
    ragged.pop();
    assert!(decode_region(&ragged).is_none());

    // Trailing words.
    let mut trailing = bytes.clone();
    for _ in 0..8 {
        trailing.push(0);
    }
    assert!(decode_region(&trailing).is_none());

    // A flag word that is neither 0 nor 1 (the first flag sits in the
    // third word of the file).
    let mut badflag = bytes.clone();
    badflag[16] = 9;
    assert!(decode_region(&badflag).is_none());

    // Too short to hold the header.
    let short: Vec<u8> = Vec::new();
    assert!(decode_region(&short).is_none());
}

#[test]
fn load_region_reports_each_error() {
    let params = TerrainParams::default_with_seed(5);
    let other = TerrainParams::default_with_seed(6);
    let region = empty_region(RegionPos { x: 2, z: 2 }, &params);
    let bytes = encode_region(&region);

    assert!(load_region(&bytes, &params).is_ok());
    match load_region(&bytes, &other) {
        Err(StoreError::ParamsMismatch) => {}
        _ => panic!("mismatched parameters must be refused"),
    }
    let garbage = vec![1u8, 2, 3];
    match load_region(&garbage, &params) {
        Err(StoreError::Corrupt) => {}
        _ => panic!("garbage must be refused as corrupt"),
    }
}

#[test]
fn upsert_replaces_by_position() {
    let params = TerrainParams::default_with_seed(9);
    let mut region = empty_region(RegionPos { x: 0, z: 0 }, &params);
    let pos = ChunkPos::new(1, 1);
    save_chunk_to_region(&mut region, &Chunk::new(), &pos);
    assert_eq!(region.chunks.len(), 1);
    save_chunk_to_region(&mut region, &small_chunk(), &pos);
    assert_eq!(region.chunks.len(), 1);
    let sc = region.chunk(pos).expect("present after upsert");
    assert!(Chunk::from_save(sc) == small_chunk());
    let elsewhere = ChunkPos::new(2, 1);
    save_chunk_to_region(&mut region, &Chunk::new(), &elsewhere);
    assert_eq!(region.chunks.len(), 2);
}

#[test]
fn overwrite_groups_by_region() {
    let params = TerrainParams::default_with_seed(3);
    let chunks = vec![
        (ChunkPos::new(0, 0), Chunk::new()),
        (ChunkPos::new(15, 15), Chunk::new()),
        (ChunkPos::new(16, 0), Chunk::new()),
        (ChunkPos::new(-1, -1), Chunk::new()),
    ];
    let regions = overwrite_regions(&chunks, &params);
    assert_eq!(regions.len(), 3);
    let find = |rx: i64, rz: i64| -> &Region {
        Region::region(&regions, RegionPos { x: rx, z: rz }).expect("region exists")
    };
    assert_eq!(find(0, 0).chunks.len(), 2);
    assert_eq!(find(1, 0).chunks.len(), 1);
    assert_eq!(find(-1, -1).chunks.len(), 1);
    let sc = Region::chunk_from_regions(&regions, ChunkPos::new(16, 0)).expect("chunk found");
    assert_eq!(sc.pos, (16, 0));
}

#[test]
fn overwrite_keeps_duplicate_inputs_in_order() {
    // The bulk rewrite mirrors its input exactly: a position handed in
    // twice appears twice, in input order.
    let params = TerrainParams::default_with_seed(4);
    let chunks = vec![
        (ChunkPos::new(1, 1), Chunk::new()),
        (ChunkPos::new(1, 1), small_chunk()),
    ];
    let regions = overwrite_regions(&chunks, &params);
    assert_eq!(regions.len(), 1);
    assert_eq!(regions[0].chunks.len(), 2);
    assert_eq!(regions[0].chunks[0].pos, (1, 1));
    assert_eq!(regions[0].chunks[1].pos, (1, 1));
    assert!(Chunk::from_save(&regions[0].chunks[0]) == Chunk::new());
    assert!(Chunk::from_save(&regions[0].chunks[1]) == small_chunk());
}

#[test]
fn save_chunk_iterator_walks_cells() {
    let sc = SaveChunk {
        pos: (0, 0),
        blocks: vec![
            Block { x: 1, y: 2, z: 3, kind: 7 },
            Block { x: 4, y: 5, z: 6, kind: 8 },
        ],
    };
    let mut it = sc.into_iter();
    assert_eq!(it.next(), Some(((1, 2, 3), 7)));
    assert_eq!(it.next(), Some(((4, 5, 6), 8)));
    assert_eq!(it.next(), None);
}

#[test]
fn pregen_validation_rejects_oversized_squares() {
    assert!(validate_pregen(-2, 2, 25).is_ok());
    assert_eq!(validate_pregen(-2, 2, 24), Err(ConfigError::PregenExceedsCache));
    assert!(validate_pregen(3, 2, 0).is_ok());
}
