//! The demand tracker, the dispatcher and the shared cache, on
//! concrete values.

use worldgen::block::STONE;
use worldgen::cache::ChunkCache;
use worldgen::chunk::Chunk;
use worldgen::params::TerrainParams;
use worldgen::pos::ChunkPos;
use worldgen::worker::ChunkWorker;
use worldgen::worldgen::{
    apply_chunk_response, apply_reconfig, update_client_views, ChunkSet, PendingMap, Viewer,
};

fn viewer(x: i32, z: i32, radius: u8, just_joined: bool) -> Viewer {
    Viewer { pos: ChunkPos::new(x, z), radius, just_joined, old_pos: ChunkPos::new(x, z),
        old_radius: radius }
}

#[test]
fn priority_ordering_two_viewers() {
    // Two viewers far apart, both just joined, over an empty world.
    let mut pending = PendingMap::new();
    let world = ChunkSet::new();
    let viewers = vec![viewer(10, 10, 2, true), viewer(100, 100, 2, true)];
    update_client_views(&mut pending, &world, &viewers);
    let order = pending.take_dispatch();
    // Each viewer wants a 5x5 square.
    assert_eq!(order.len(), 50);
    // A view centre is first, at distance zero.
    assert_eq!(order[0].0, 0);
    let first = order[0].1;
    assert!((first.x == 10 && first.z == 10) || (first.x == 100 && first.z == 100));
    // Priorities never decrease (the dispatched order is by ascending
    // squared distance to the nearest interested viewer).
    for i in 1..order.len() {
        assert!(order[i - 1].0 <= order[i].0);
    }
    // The corner (12, 12) has squared distance 8; everything strictly
    // farther from both viewers comes after it.
    let corner_at = order.iter().position(|e| e.1.x == 12 && e.1.z == 12).expect("corner wanted");
    assert_eq!(order[corner_at].0, 8);
    for i in 0..corner_at {
        assert!(order[i].0 <= 8);
    }
}

#[test]
fn demand_update_rules() {
    let mut pending = PendingMap::new();
    let mut world = ChunkSet::new();
    // A chunk the world holds is never queued.
    world.insert(&ChunkPos::new(0, 0));
    let viewers = vec![viewer(0, 0, 1, true)];
    update_client_views(&mut pending, &world, &viewers);
    assert_eq!(pending.get(&ChunkPos::new(0, 0)), None);
    assert_eq!(pending.get(&ChunkPos::new(1, 0)), Some(Some(1)));
    assert_eq!(pending.get(&ChunkPos::new(1, 1)), Some(Some(2)));
    // A closer viewer lowers a queued priority, never raises it.
    let closer = vec![viewer(2, 0, 1, true)];
    update_client_views(&mut pending, &world, &closer);
    assert_eq!(pending.get(&ChunkPos::new(1, 0)), Some(Some(1)));
    assert_eq!(pending.get(&ChunkPos::new(2, 0)), Some(Some(0)));
    // A viewer that did not just join skips what it already saw.
    let mut fresh = PendingMap::new();
    let moved = Viewer {
        pos: ChunkPos::new(1, 0),
        radius: 1,
        just_joined: false,
        old_pos: ChunkPos::new(0, 0),
        old_radius: 1,
    };
    update_client_views(&mut fresh, &ChunkSet::new(), &vec![moved]);
    // Only the column that entered the view is new.
    assert_eq!(fresh.get(&ChunkPos::new(0, 0)), None);
    assert_eq!(fresh.get(&ChunkPos::new(2, 0)), Some(Some(1)));
    assert_eq!(fresh.get(&ChunkPos::new(2, 1)), Some(Some(2)));
    assert_eq!(fresh.get(&ChunkPos::new(1, 0)), None);
}

#[test]
fn responses_settle_requests() {
    let mut pending = PendingMap::new();
    let mut world = ChunkSet::new();
    let viewers = vec![viewer(0, 0, 1, true)];
    update_client_views(&mut pending, &world, &viewers);
    let order = pending.take_dispatch();
    assert_eq!(order.len(), 9);
    // Once sent, an entry is marked and never dispatched again.
    let again = pending.take_dispatch();
    assert_eq!(again.len(), 0);
    // A finished chunk enters the world and leaves the pending map.
    let pos = order[0].1;
    apply_chunk_response(&mut world, &mut pending, &pos);
    assert!(world.contains(&pos));
    assert_eq!(pending.get(&pos), None);
}

#[test]
fn reconfig_requeues_every_view() {
    let mut pending = PendingMap::new();
    let mut world = ChunkSet::new();
    let viewers = vec![viewer(0, 0, 1, false)];
    world.insert(&ChunkPos::new(0, 0));
    apply_reconfig(&mut pending, &mut world, &viewers);
    // The world was cleared and the whole view queued, even for viewers
    // that did not just join.
    assert!(!world.contains(&ChunkPos::new(0, 0)));
    assert_eq!(pending.get(&ChunkPos::new(0, 0)), Some(Some(0)));
    assert_eq!(pending.get(&ChunkPos::new(1, 1)), Some(Some(2)));
    let order = pending.take_dispatch();
    assert_eq!(order.len(), 9);
}

#[test]
fn retain_drops_unviewed_chunks() {
    let mut world = ChunkSet::new();
    world.insert(&ChunkPos::new(0, 0));
    world.insert(&ChunkPos::new(50, 50));
    let viewers = vec![viewer(0, 0, 2, false)];
    let removed = world.retain_viewed(&viewers);
    assert!(world.contains(&ChunkPos::new(0, 0)));
    assert!(!world.contains(&ChunkPos::new(50, 50)));
    assert_eq!(removed.len(), 1);
    assert_eq!(removed[0].x, 50);
}

fn stone_chunk() -> Chunk {
    let mut c = Chunk::new();
    c.set_block_state(5, 100, 5, STONE);
    c
}

#[test]
fn cache_serves_what_was_stored() {
    let mut cache = ChunkCache::new(4);
    let pos = ChunkPos::new(2, -3);
    assert!(cache.get(&pos).is_none());
    cache.insert(&pos, &stone_chunk());
    let back = cache.get(&pos).expect("cached");
    // The stored chunk comes back cell for cell, not some other value.
    assert_eq!(back.block_state(5, 100, 5), STONE);
    assert!(back == stone_chunk());
    assert_eq!(cache.len(), 1);
    cache.clear();
    assert!(cache.get(&pos).is_none());
    assert_eq!(cache.len(), 0);
}

#[test]
fn cache_evicts_least_recently_used_at_bound() {
    let mut cache = ChunkCache::new(2);
    let a = ChunkPos::new(0, 0);
    let b = ChunkPos::new(1, 0);
    let c = ChunkPos::new(2, 0);
    cache.insert(&a, &Chunk::new());
    cache.insert(&b, &Chunk::new());
    // Touch `a` so that `b` is the least recently used entry.
    assert!(cache.get(&a).is_some());
    cache.insert(&c, &Chunk::new());
    assert_eq!(cache.len(), 2);
    assert!(cache.get(&a).is_some());
    assert!(cache.get(&b).is_none());
    assert!(cache.get(&c).is_some());
}

#[test]
fn worker_messages_drive_the_state() {
    let p1 = TerrainParams::default_with_seed(1);
    let p2 = TerrainParams::default_with_seed(1);
    // Equality on parameters is structural.
    assert_eq!(p1, p2);
    let mut w = ChunkWorker::new(p1, 4);
    match w.handle_get_settings() {
        worldgen::worker::WorkerResponse::GetTerrainSettings(s) => assert_eq!(s, p1),
        _ => panic!("a parameter query reports the parameters"),
    }
    let (reseed, _) = w.handle_set_settings(p2);
    assert!(!reseed);
    let mut p3 = p2;
    p3.seed = 99;
    let (reseed2, _) = w.handle_set_settings(p3);
    assert!(reseed2);
}
