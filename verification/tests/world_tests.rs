use valence_terrain::ChunkPos;
use valence_terrain::Region;
use valence_terrain::WorldStore;

fn pos(x: i32, z: i32) -> ChunkPos {
    ChunkPos { x, z }
}

fn region() -> Region {
    Region { columns: Vec::new() }
}

#[test]
fn world_insert_and_lookup() {
    let mut w = WorldStore::new();
    assert!(!w.contains(pos(0, 0)));
    w.insert(pos(0, 0), region());
    assert!(w.contains(pos(0, 0)));
    assert!(w.get(pos(0, 0)).is_some());
    assert!(w.get(pos(1, 0)).is_none());
}

#[test]
fn retention_sweep_evicts_only_unviewed_regions() {
    let mut w = WorldStore::new();
    w.insert(pos(0, 0), region());
    w.insert(pos(1, 0), region());
    w.insert(pos(2, 0), region());
    w.set_viewers(pos(0, 0), 2);
    w.set_viewers(pos(2, 0), 1);
    w.remove_unviewed();
    assert!(w.contains(pos(0, 0)));
    assert!(!w.contains(pos(1, 0)));
    assert!(w.contains(pos(2, 0)));
    // a viewer leaves: the next sweep evicts that region too
    w.set_viewers(pos(2, 0), 0);
    w.remove_unviewed();
    assert!(!w.contains(pos(2, 0)));
    assert!(w.contains(pos(0, 0)));
}
