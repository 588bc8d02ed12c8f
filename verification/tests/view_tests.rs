use valence_terrain::distance_squared;
use valence_terrain::update_client_view;
use valence_terrain::ChunkPos;
use valence_terrain::ChunkView;
use valence_terrain::TerrainGenConfig;
use valence_terrain::TerrainGenerator;
use valence_terrain::WorldStore;

fn pos(x: i32, z: i32) -> ChunkPos {
    ChunkPos { x, z }
}

fn view(x: i32, z: i32, dist: u8) -> ChunkView {
    ChunkView { pos: pos(x, z), dist }
}

fn drain_requests(handle: &valence_terrain::WorkerHandle) -> Vec<ChunkPos> {
    let mut out = Vec::new();
    while let Ok(p) = handle.requests.try_recv() {
        out.push(p);
    }
    out
}

#[test]
fn new_observer_requests_its_whole_visible_set() {
    let (mut gen, handle) = TerrainGenerator::new(TerrainGenConfig::default(), 0);
    let mut world = WorldStore::new();
    update_client_view(&mut gen, &world, view(0, 0, 1), view(0, 0, 1), true);
    gen.finish_cycle();
    gen.flush(&mut world).unwrap();
    let got = drain_requests(&handle);
    assert_eq!(got.len(), 9);
    for x in -1..=1 {
        for z in -1..=1 {
            assert!(got.contains(&pos(x, z)), "missing ({}, {})", x, z);
        }
    }
    // the observer's own region is the closest, so it is requested first
    assert_eq!(got[0], pos(0, 0));
}

#[test]
fn moved_observer_requests_only_newly_visible_regions() {
    let (mut gen, handle) = TerrainGenerator::new(TerrainGenConfig::default(), 0);
    let mut world = WorldStore::new();
    update_client_view(&mut gen, &world, view(0, 0, 1), view(0, 0, 1), true);
    gen.finish_cycle();
    gen.flush(&mut world).unwrap();
    drain_requests(&handle);

    // one step east: only the x == 2 column is new
    update_client_view(&mut gen, &world, view(1, 0, 1), view(0, 0, 1), false);
    gen.finish_cycle();
    gen.flush(&mut world).unwrap();
    let got = drain_requests(&handle);
    assert_eq!(got.len(), 3);
    for z in -1..=1 {
        assert!(got.contains(&pos(2, z)), "missing (2, {})", z);
    }
}

#[test]
fn unchanged_view_requests_nothing() {
    let (mut gen, handle) = TerrainGenerator::new(TerrainGenConfig::default(), 0);
    let mut world = WorldStore::new();
    update_client_view(&mut gen, &world, view(0, 0, 2), view(0, 0, 2), true);
    gen.finish_cycle();
    gen.flush(&mut world).unwrap();
    drain_requests(&handle);
    update_client_view(&mut gen, &world, view(0, 0, 2), view(0, 0, 2), false);
    gen.flush(&mut world).unwrap();
    assert!(drain_requests(&handle).is_empty());
}

#[test]
fn render_dist_override_caps_the_view() {
    let (mut gen, handle) = TerrainGenerator::new(TerrainGenConfig::default(), 1);
    let mut world = WorldStore::new();
    update_client_view(&mut gen, &world, view(0, 0, 5), view(0, 0, 5), true);
    gen.finish_cycle();
    gen.flush(&mut world).unwrap();
    // capped to distance 1: a 3 by 3 square, not 11 by 11
    assert_eq!(drain_requests(&handle).len(), 9);
}

#[test]
fn reload_flag_forces_a_full_requeue() {
    let (mut gen, handle) = TerrainGenerator::new(TerrainGenConfig::default(), 0);
    let mut world = WorldStore::new();
    update_client_view(&mut gen, &world, view(0, 0, 1), view(0, 0, 1), true);
    gen.finish_cycle();
    gen.flush(&mut world).unwrap();
    drain_requests(&handle);

    gen.set_render_dist(0);
    assert!(gen.needs_reload());
    // with the reload flag up, an unchanged view is fully requeued, but the
    // regions are already in flight, so nothing is dispatched twice
    update_client_view(&mut gen, &world, view(0, 0, 1), view(0, 0, 1), false);
    gen.finish_cycle();
    gen.flush(&mut world).unwrap();
    assert!(drain_requests(&handle).is_empty());
    assert!(!gen.needs_reload());
}

#[test]
fn resident_regions_are_not_requested() {
    let (mut gen, handle) = TerrainGenerator::new(TerrainGenConfig::default(), 0);
    let mut world = WorldStore::new();
    world.insert(pos(0, 0), valence_terrain::Region { columns: Vec::new() });
    update_client_view(&mut gen, &world, view(0, 0, 1), view(0, 0, 1), true);
    gen.finish_cycle();
    gen.flush(&mut world).unwrap();
    let got = drain_requests(&handle);
    assert_eq!(got.len(), 8);
    assert!(!got.contains(&pos(0, 0)));
}

#[test]
fn distance_squared_is_the_priority_metric() {
    assert_eq!(distance_squared(pos(0, 0), pos(0, 0)), 0);
    assert_eq!(distance_squared(pos(0, 0), pos(3, 4)), 25);
    assert_eq!(distance_squared(pos(-2, 1), pos(1, -3)), 25);
    assert_eq!(
        distance_squared(pos(i32::MIN, i32::MIN), pos(i32::MAX, i32::MAX)),
        u64::MAX
    );
}
