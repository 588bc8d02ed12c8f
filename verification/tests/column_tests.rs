use valence_terrain::clamp_height;
use valence_terrain::synthesize_column;
use valence_terrain::synthesize_region;
use valence_terrain::BlockId;

fn stone() -> BlockId {
    BlockId(1)
}

fn dirt() -> BlockId {
    BlockId(2)
}

fn grass() -> BlockId {
    BlockId(3)
}

fn profile_layers() -> Vec<(u16, BlockId)> {
    vec![(3, dirt()), (1, grass())]
}

#[test]
fn column_with_room_for_all_layers() {
    // height sample 10 over base stone, layers 3 dirt then 1 grass on top
    let col = synthesize_column(stone(), &profile_layers(), 10, 128);
    assert_eq!(col.len(), 128);
    for y in 0..6 {
        assert_eq!(col[y], Some(stone()), "cell {}", y);
    }
    for y in 6..9 {
        assert_eq!(col[y], Some(dirt()), "cell {}", y);
    }
    assert_eq!(col[9], Some(grass()));
    for y in 10..128 {
        assert_eq!(col[y], None, "cell {}", y);
    }
}

#[test]
fn column_truncates_deepest_layers_first() {
    // height sample 2 is below the total surface thickness 4: one dirt cell
    // survives, grass stays on top, and no stone at all
    let col = synthesize_column(stone(), &profile_layers(), 2, 128);
    assert_eq!(col[0], Some(dirt()));
    assert_eq!(col[1], Some(grass()));
    for y in 2..128 {
        assert_eq!(col[y], None, "cell {}", y);
    }
    assert!(!col.iter().any(|c| *c == Some(stone())));
}

#[test]
fn column_of_height_one_is_only_the_top_layer() {
    let col = synthesize_column(stone(), &profile_layers(), 1, 16);
    assert_eq!(col[0], Some(grass()));
    for y in 1..16 {
        assert_eq!(col[y], None);
    }
}

#[test]
fn top_layer_always_sits_at_surface() {
    for h in 1..16u32 {
        let col = synthesize_column(stone(), &profile_layers(), h, 16);
        assert_eq!(col[(h - 1) as usize], Some(grass()), "height {}", h);
        for y in h as usize..16 {
            assert_eq!(col[y], None, "height {} cell {}", h, y);
        }
    }
}

#[test]
fn column_without_layers_is_all_base() {
    let col = synthesize_column(stone(), &Vec::new(), 5, 8);
    for y in 0..5 {
        assert_eq!(col[y], Some(stone()));
    }
    for y in 5..8 {
        assert_eq!(col[y], None);
    }
}

#[test]
fn clamp_height_bounds() {
    assert_eq!(clamp_height(-100, 128), 1);
    assert_eq!(clamp_height(0, 128), 1);
    assert_eq!(clamp_height(1, 128), 1);
    assert_eq!(clamp_height(64, 128), 64);
    assert_eq!(clamp_height(127, 128), 127);
    assert_eq!(clamp_height(128, 128), 127);
    assert_eq!(clamp_height(1_000_000, 128), 127);
}

#[test]
fn region_clamps_each_height() {
    let heights: Vec<i64> = vec![10, 2, -5, 500];
    let region = synthesize_region(&heights, stone(), &profile_layers(), 128);
    assert_eq!(region.columns.len(), 4);
    // sample 10: same as the full-column case
    assert_eq!(region.columns[0][9], Some(grass()));
    assert_eq!(region.columns[0][10], None);
    // sample 2: truncated
    assert_eq!(region.columns[1][0], Some(dirt()));
    assert_eq!(region.columns[1][1], Some(grass()));
    // sample -5 clamps to 1
    assert_eq!(region.columns[2][0], Some(grass()));
    assert_eq!(region.columns[2][1], None);
    // sample 500 clamps to 127
    assert_eq!(region.columns[3][126], Some(grass()));
    assert_eq!(region.columns[3][127], None);
}
