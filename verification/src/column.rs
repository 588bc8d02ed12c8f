//! The column synthesizer: given one clamped height sample and an ordered
//! list of surface layers, decide the material of every cell in a vertical
//! column.
//!
//! Layers are ordered from deepest (index 0) to topmost (last index). The
//! topmost layer always ends at cell `h - 1`; when the height is smaller than
//! the total surface thickness, the deepest layers are truncated first, so
//! the surface the viewer sees is always the configured topmost material.

use vstd::prelude::*;

verus! {

/// A material identifier. The mapping from identifiers to concrete host
/// materials (and which identifier means what) is the host's business; the
/// library only moves these values around and compares them.
#[derive(Clone, Copy, PartialEq, Eq, Structural, Debug, Hash)]
pub struct BlockId(pub u16);

/// One generated region: one synthesized column of cells per horizontal
/// position, `None` meaning air.
#[derive(Clone, Debug)]
pub struct Region {
    pub columns: Vec<Vec<Option<BlockId>>>,
}

/// The material found `d` cells below the surface (`d == 1` is the cell
/// directly under the surface, at `h - 1`). Depths within the topmost layer
/// take its material; deeper depths walk down the stack; depths below the
/// whole stack take the base material. A zero-thickness layer covers no
/// depth at all.
pub open spec fn material_at_depth(base: BlockId, layers: Seq<(u16, BlockId)>, d: int) -> BlockId
    decreases layers.len(),
{
    if layers.len() == 0 {
        base
    } else if d <= layers.last().0 {
        layers.last().1
    } else {
        material_at_depth(base, layers.drop_last(), d - layers.last().0)
    }
}

/// What cell `y` of a column of height sample `h` holds: air at and above
/// `h`, and below `h` the material at depth `h - y`.
pub open spec fn spec_cell(base: BlockId, layers: Seq<(u16, BlockId)>, h: int, y: int) -> Option<
    BlockId,
> {
    if y >= h {
        None
    } else {
        Some(material_at_depth(base, layers, h - y))
    }
}

/// A raw height sample clamped to the valid range `[1, height - 1]`.
pub open spec fn spec_clamp_height(raw: int, height: int) -> int {
    if raw < 1 {
        1
    } else if raw > height - 1 {
        height - 1
    } else {
        raw
    }
}

/// Clamp a raw (noise-derived) height sample to `[1, height - 1]`.
pub fn clamp_height(raw: i64, height: u32) -> (h: u32)
    requires
        height >= 2,
    ensures
        h == spec_clamp_height(raw as int, height as int),
        1 <= h < height,
{
    if raw < 1 {
        1
    } else if raw > (height - 1) as i64 {
        height - 1
    } else {
        raw as u32
    }
}

/// Walk the layer stack from the top to find the material at depth `d`.
fn material_at_depth_exec(base: BlockId, layers: &Vec<(u16, BlockId)>, d: usize) -> (r: BlockId)
    requires
        d >= 1,
    ensures
        r == material_at_depth(base, layers@, d as int),
{
    let mut k: usize = layers.len();
    let mut rem: usize = d;
    proof {
        assert(layers@.subrange(0, layers@.len() as int) =~= layers@);
    }
    while k > 0
        invariant
            0 <= k <= layers.len(),
            rem >= 1,
            material_at_depth(base, layers@, d as int) == material_at_depth(
                base,
                layers@.subrange(0, k as int),
                rem as int,
            ),
        decreases k,
    {
        let (t, m) = layers[k - 1];
        proof {
            assert(layers@.subrange(0, k as int).last() == layers@[k - 1]);
            assert(layers@.subrange(0, k as int).drop_last() =~= layers@.subrange(0, k as int - 1));
        }
        if rem <= t as usize {
            return m;
        }
        rem = rem - t as usize;
        k = k - 1;
    }
    proof {
        assert(layers@.subrange(0, 0) =~= Seq::<(u16, BlockId)>::empty());
    }
    base
}

/// Synthesize one vertical column: `height` cells, air from `h` upward, the
/// surviving surface layers stacked directly below `h`, base fill beneath.
pub fn synthesize_column(
    base: BlockId,
    layers: &Vec<(u16, BlockId)>,
    h: u32,
    height: u32,
) -> (col: Vec<Option<BlockId>>)
    requires
        1 <= h < height,
    ensures
        col.len() == height,
        forall|y: int|
            0 <= y < height ==> col[y] == spec_cell(base, layers@, h as int, y),
{
    let mut col: Vec<Option<BlockId>> = Vec::new();
    let mut y: usize = 0;
    while y < height as usize
        invariant
            1 <= h < height,
            col.len() == y,
            y <= height,
            forall|j: int| 0 <= j < y ==> col[j] == spec_cell(base, layers@, h as int, j),
        decreases height as usize - y,
    {
        if y < h as usize {
            let m = material_at_depth_exec(base, layers, h as usize - y);
            col.push(Some(m));
        } else {
            col.push(None);
        }
        y = y + 1;
    }
    col
}

/// Synthesize a whole region from one raw height sample per column. Each
/// sample is clamped to `[1, height - 1]` before synthesis.
pub fn synthesize_region(
    heights: &Vec<i64>,
    base: BlockId,
    layers: &Vec<(u16, BlockId)>,
    height: u32,
) -> (region: Region)
    requires
        height >= 2,
    ensures
        region.columns.len() == heights.len(),
        forall|i: int, y: int|
            0 <= i < heights.len() && 0 <= y < height ==> #[trigger] region.columns[i][y]
                == spec_cell(
                base,
                layers@,
                spec_clamp_height(heights[i] as int, height as int),
                y,
            ),
        forall|i: int| 0 <= i < heights.len() ==> #[trigger] region.columns[i].len() == height,
{
    let mut columns: Vec<Vec<Option<BlockId>>> = Vec::new();
    let mut i: usize = 0;
    while i < heights.len()
        invariant
            height >= 2,
            columns.len() == i,
            i <= heights.len(),
            forall|k: int, y: int|
                0 <= k < i && 0 <= y < height ==> #[trigger] columns[k][y] == spec_cell(
                    base,
                    layers@,
                    spec_clamp_height(heights[k] as int, height as int),
                    y,
                ),
            forall|k: int| 0 <= k < i ==> #[trigger] columns[k].len() == height,
        decreases heights.len() - i,
    {
        let h = clamp_height(heights[i], height);
        let col = synthesize_column(base, layers, h, height);
        columns.push(col);
        i = i + 1;
    }
    Region { columns }
}

/// The total thickness of a surface-layer stack.
pub open spec fn total_thickness(layers: Seq<(u16, BlockId)>) -> int
    decreases layers.len(),
{
    if layers.len() == 0 {
        0
    } else {
        total_thickness(layers.drop_last()) + layers.last().0
    }
}

/// Whatever the height sample and however much of the stack was truncated,
/// the cell directly below the surface holds the topmost layer's material
/// (provided that layer has any thickness), and every cell at or above the
/// surface is air.
pub proof fn lemma_top_layer_survives(
    base: BlockId,
    layers: Seq<(u16, BlockId)>,
    h: int,
    y: int,
)
    requires
        layers.len() > 0,
        layers.last().0 >= 1,
        h >= 1,
    ensures
        spec_cell(base, layers, h, h - 1) == Some(layers.last().1),
        y >= h ==> spec_cell(base, layers, h, y) is None,
{
}

/// When the height sample is no larger than the topmost layer's own
/// thickness, the column is nothing but that (truncated) top layer below the
/// surface and air above: the base fill and every deeper layer have zero
/// thickness in the output.
pub proof fn lemma_thin_column_is_top_layer_only(
    base: BlockId,
    layers: Seq<(u16, BlockId)>,
    h: int,
    y: int,
)
    requires
        layers.len() > 0,
        1 <= h <= layers.last().0,
        0 <= y,
    ensures
        y < h ==> spec_cell(base, layers, h, y) == Some(layers.last().1),
        y >= h ==> spec_cell(base, layers, h, y) is None,
{
}

} // verus!
