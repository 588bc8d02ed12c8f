use valence_terrain::ChunkPos;
use valence_terrain::Region;
use valence_terrain::TerrainGenConfig;
use valence_terrain::TerrainGenerator;
use valence_terrain::WorldStore;

fn pos(x: i32, z: i32) -> ChunkPos {
    ChunkPos { x, z }
}

fn empty_region() -> Region {
    Region { columns: Vec::new() }
}

#[test]
fn flush_dispatches_queued_coordinates_by_priority() {
    let (mut gen, handle) = TerrainGenerator::new(TerrainGenConfig::default(), 0);
    let mut world = WorldStore::new();
    gen.enqueue(pos(5, 5), 50, false);
    gen.enqueue(pos(1, 1), 2, false);
    gen.enqueue(pos(3, 3), 18, false);
    gen.flush(&mut world).unwrap();
    assert_eq!(handle.requests.try_recv(), Ok(pos(1, 1)));
    assert_eq!(handle.requests.try_recv(), Ok(pos(3, 3)));
    assert_eq!(handle.requests.try_recv(), Ok(pos(5, 5)));
    assert!(handle.requests.try_recv().is_err());
}

#[test]
fn enqueue_twice_dispatches_once() {
    let (mut gen, handle) = TerrainGenerator::new(TerrainGenConfig::default(), 0);
    let mut world = WorldStore::new();
    gen.enqueue(pos(0, 0), 10, false);
    gen.enqueue(pos(0, 0), 4, false);
    gen.enqueue(pos(0, 0), 9, false);
    gen.flush(&mut world).unwrap();
    assert_eq!(handle.requests.try_recv(), Ok(pos(0, 0)));
    assert!(handle.requests.try_recv().is_err());
    // still in flight: another enqueue and flush must not dispatch it again
    gen.enqueue(pos(0, 0), 1, false);
    gen.flush(&mut world).unwrap();
    assert!(handle.requests.try_recv().is_err());
}

#[test]
fn enqueue_of_resident_region_is_a_no_op() {
    let (mut gen, handle) = TerrainGenerator::new(TerrainGenConfig::default(), 0);
    let mut world = WorldStore::new();
    world.insert(pos(2, 2), empty_region());
    gen.enqueue(pos(2, 2), 1, world.contains(pos(2, 2)));
    gen.flush(&mut world).unwrap();
    assert!(handle.requests.try_recv().is_err());
}

#[test]
fn flush_on_idle_scheduler_is_a_no_op() {
    let (mut gen, handle) = TerrainGenerator::new(TerrainGenConfig::default(), 0);
    let mut world = WorldStore::new();
    world.insert(pos(9, 9), empty_region());
    gen.flush(&mut world).unwrap();
    gen.flush(&mut world).unwrap();
    assert!(handle.requests.try_recv().is_err());
    assert!(world.contains(pos(9, 9)));
    assert!(!world.contains(pos(0, 0)));
}

#[test]
fn completed_result_lands_in_world_storage() {
    let (mut gen, handle) = TerrainGenerator::new(TerrainGenConfig::default(), 0);
    let mut world = WorldStore::new();
    gen.enqueue(pos(4, -2), 7, false);
    gen.flush(&mut world).unwrap();
    let wanted = handle.requests.try_recv().unwrap();
    assert_eq!(wanted, pos(4, -2));
    handle.results.send((wanted, empty_region())).unwrap();
    gen.flush(&mut world).unwrap();
    assert!(world.contains(pos(4, -2)));
    // resolved: the coordinate can be generated again after eviction
    gen.enqueue(pos(4, -2), 7, world.contains(pos(4, -2)));
    gen.flush(&mut world).unwrap();
    assert!(handle.requests.try_recv().is_err());
}

#[test]
fn result_for_unknown_coordinate_is_a_protocol_violation() {
    let (mut gen, handle) = TerrainGenerator::new(TerrainGenConfig::default(), 0);
    let mut world = WorldStore::new();
    handle.results.send((pos(8, 8), empty_region())).unwrap();
    assert!(gen.flush(&mut world).is_err());
    assert!(!world.contains(pos(8, 8)));
}

#[test]
fn render_dist_round_trips() {
    let (mut gen, _handle) = TerrainGenerator::new(TerrainGenConfig::default(), 3);
    assert_eq!(gen.render_dist(), 3);
    gen.set_render_dist(7);
    assert_eq!(gen.render_dist(), 7);
    assert!(gen.needs_reload());
}

#[test]
fn reload_discards_stale_results() {
    let (mut gen, old_handle) = TerrainGenerator::new(TerrainGenConfig::default(), 0);
    let mut world = WorldStore::new();
    gen.enqueue(pos(1, 2), 5, false);
    gen.flush(&mut world).unwrap();
    let wanted = old_handle.requests.try_recv().unwrap();
    assert_eq!(wanted, pos(1, 2));

    // reload before the result returns
    let new_handle = gen.reload(TerrainGenConfig::default());

    // the old worker finishes late; its channel no longer reaches any
    // generator, so the stale result is dropped, never applied
    assert!(old_handle.results.send((wanted, empty_region())).is_err());
    gen.flush(&mut world).unwrap();
    assert!(!world.contains(pos(1, 2)));

    // the coordinate is independently re-enqueueable and resolves correctly
    gen.enqueue(pos(1, 2), 5, world.contains(pos(1, 2)));
    gen.flush(&mut world).unwrap();
    let again = new_handle.requests.try_recv().unwrap();
    assert_eq!(again, pos(1, 2));
    new_handle.results.send((again, empty_region())).unwrap();
    gen.flush(&mut world).unwrap();
    assert!(world.contains(pos(1, 2)));
}

#[test]
fn workers_stop_when_generator_is_dropped() {
    let (gen, handle) = TerrainGenerator::new(TerrainGenConfig::default(), 0);
    drop(gen);
    // the request channel's sending side is gone: a blocking worker exits
    assert!(handle.requests.recv().is_err());
}
