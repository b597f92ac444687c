use vstd::prelude::*;
use crate::block::BlockID;
use crate::column::{height_index, ChunkColumn};

verus! {

/// Index of a cell in a column's flat field-sample array, which covers
/// the full world height of 256 blocks.
pub open spec fn sample_index(x: int, y: int, z: int) -> int {
    y * 256 + z * 16 + x
}

/// The layered field test that decides solidity: the sampled continuous
/// noise value (carried as a fixed-point integer, scaled by 1000) plus
/// the depth-biased vertical term stays below the threshold.
pub open spec fn spec_field_solid(sample: int, y: int) -> bool {
    64 * sample + 64_000 + 1700 * y < 256_000
}

/// The highest solid cell below height `n` at a horizontal position,
/// or 0 when the column of samples holds none.
pub open spec fn spec_surface_below(samples: Seq<i64>, x: int, z: int, n: int) -> int
    decreases n,
{
    if n <= 0 {
        0
    } else if spec_field_solid(samples[sample_index(x, n - 1, z)] as int, n - 1) {
        n - 1
    } else {
        spec_surface_below(samples, x, z, n - 1)
    }
}

/// The surface height that terrain synthesis derives for a horizontal
/// position: the highest solid cell of the whole column.
pub open spec fn spec_surface(samples: Seq<i64>, x: int, z: int) -> int {
    spec_surface_below(samples, x, z, 256)
}

pub proof fn lemma_surface_bounds(samples: Seq<i64>, x: int, z: int, n: int)
    requires
        0 <= n <= 256,
    ensures
        0 <= spec_surface_below(samples, x, z, n) < 256,
    decreases n,
{
    if n > 0 {
        lemma_surface_bounds(samples, x, z, n - 1);
    }
}

/// The block that terrain synthesis leaves at a cell: bedrock in the
/// bottom three layers, grass at the surface, dirt in the three solid
/// cells beneath it, stone in every other solid cell, air elsewhere.
pub open spec fn spec_terrain_block(samples: Seq<i64>, x: int, y: int, z: int) -> BlockID {
    let h = spec_surface(samples, x, z);
    if y <= 2 {
        BlockID::Bedrock
    } else if spec_field_solid(samples[sample_index(x, y, z)] as int, y) {
        if y == h {
            BlockID::GrassBlock
        } else if h - 3 <= y < h {
            BlockID::Dirt
        } else {
            BlockID::Stone
        }
    } else {
        BlockID::Air
    }
}

fn field_solid(sample: i64, y: u32) -> (r: bool)
    requires
        -1_000_000 <= sample <= 1_000_000,
        y < 256,
    ensures
        r == spec_field_solid(sample as int, y as int),
{
    64 * sample + 64_000 + 1700 * (y as i64) < 256_000
}

/// Synthesize one column of terrain from its field samples: fill solid
/// cells scanning each position over the full height, derive the
/// heightmap as the highest solid cell, convert the surface to grass
/// and the next cells down to dirt, and force the bottom three layers
/// to bedrock.  Every cell of the column is written, so a recycled
/// column comes out identical to a fresh one.
pub fn generate_terrain_column(column: &mut ChunkColumn, samples: &Vec<i64>)
    requires
        old(column).wf(),
        samples@.len() == 65536,
        forall|i: int| 0 <= i < 65536 ==> -1_000_000 <= #[trigger] samples@[i] <= 1_000_000,
    ensures
        final(column).wf(),
        forall|x: u32, z: u32|
            x < 16 && z < 16 ==> #[trigger] final(column).spec_heights()[height_index(
                x as int,
                z as int,
            )] == spec_surface(samples@, x as int, z as int),
        forall|x: u32, y: u32, z: u32|
            x < 16 && y < 256 && z < 16 ==> #[trigger] final(column).spec_block_at(
                x as int,
                y as int,
                z as int,
            ) == spec_terrain_block(samples@, x as int, y as int, z as int),
        final(column).has_foliage == old(column).has_foliage,
        forall|i: int|
            0 <= i < 16 ==> (#[trigger] final(column).spec_chunks()[i]).same_except_blocks(
                old(column).spec_chunks()[i],
            ),
    {
        let mut z: u32 = 0;
        while z < 16
            invariant
                column.wf(),
                samples@.len() == 65536,
                forall|i: int|
                    0 <= i < 65536 ==> -1_000_000 <= #[trigger] samples@[i] <= 1_000_000,
                z <= 16,
                forall|x2: u32, z2: u32|
                    x2 < 16 && z2 < z ==> #[trigger] column.spec_heights()[height_index(
                        x2 as int,
                        z2 as int,
                    )] == spec_surface(samples@, x2 as int, z2 as int),
                forall|x2: u32, y2: u32, z2: u32|
                    x2 < 16 && y2 < 256 && z2 < z ==> #[trigger] column.spec_block_at(
                        x2 as int,
                        y2 as int,
                        z2 as int,
                    ) == spec_terrain_block(samples@, x2 as int, y2 as int, z2 as int),
                column.has_foliage == old(column).has_foliage,
                forall|i: int|
                    0 <= i < 16 ==> (#[trigger] column.spec_chunks()[i]).same_except_blocks(
                        old(column).spec_chunks()[i],
                    ),
            decreases 16 - z,
        {
            let mut x: u32 = 0;
            while x < 16
                invariant
                    column.wf(),
                    samples@.len() == 65536,
                    forall|i: int|
                        0 <= i < 65536 ==> -1_000_000 <= #[trigger] samples@[i] <= 1_000_000,
                    z < 16,
                    x <= 16,
                    forall|x2: u32, z2: u32|
                        x2 < 16 && z2 < 16 && (z2 < z || (z2 == z && x2 < x))
                            ==> #[trigger] column.spec_heights()[height_index(
                            x2 as int,
                            z2 as int,
                        )] == spec_surface(samples@, x2 as int, z2 as int),
                    forall|x2: u32, y2: u32, z2: u32|
                        x2 < 16 && y2 < 256 && z2 < 16 && (z2 < z || (z2 == z && x2 < x))
                            ==> #[trigger] column.spec_block_at(
                            x2 as int,
                            y2 as int,
                            z2 as int,
                        ) == spec_terrain_block(samples@, x2 as int, y2 as int, z2 as int),
                    column.has_foliage == old(column).has_foliage,
                    forall|i: int|
                        0 <= i < 16 ==> (#[trigger] column.spec_chunks()[i]).same_except_blocks(
                            old(column).spec_chunks()[i],
                        ),
                decreases 16 - x,
            {
                // derive the surface: highest solid cell of this position
                let mut h: u32 = 0;
                let mut y: u32 = 0;
                while y < 256
                    invariant
                        samples@.len() == 65536,
                        forall|i: int|
                            0 <= i < 65536 ==> -1_000_000 <= #[trigger] samples@[i]
                                <= 1_000_000,
                        x < 16,
                        z < 16,
                        y <= 256,
                        h as int == spec_surface_below(samples@, x as int, z as int, y as int),
                        h < 256,
                    decreases 256 - y,
                {
                    let s = samples[(y * 256 + z * 16 + x) as usize];
                    if field_solid(s, y) {
                        h = y;
                    }
                    y = y + 1;
                }
                column.set_height(x, z, h);
                // write every cell of this position
                let mut y: u32 = 0;
                while y < 256
                    invariant
                        column.wf(),
                        samples@.len() == 65536,
                        forall|i: int|
                            0 <= i < 65536 ==> -1_000_000 <= #[trigger] samples@[i]
                                <= 1_000_000,
                        x < 16,
                        z < 16,
                        y <= 256,
                        h as int == spec_surface(samples@, x as int, z as int),
                        forall|x2: u32, z2: u32|
                            x2 < 16 && z2 < 16 && (z2 < z || (z2 == z && x2 <= x))
                                ==> #[trigger] column.spec_heights()[height_index(
                                x2 as int,
                                z2 as int,
                            )] == spec_surface(samples@, x2 as int, z2 as int),
                        forall|x2: u32, y2: u32, z2: u32|
                            x2 < 16 && y2 < 256 && z2 < 16 && (z2 < z || (z2 == z && x2 < x))
                                ==> #[trigger] column.spec_block_at(
                                x2 as int,
                                y2 as int,
                                z2 as int,
                            ) == spec_terrain_block(samples@, x2 as int, y2 as int, z2 as int),
                        forall|y2: u32|
                            y2 < y ==> #[trigger] column.spec_block_at(
                                x as int,
                                y2 as int,
                                z as int,
                            ) == spec_terrain_block(samples@, x as int, y2 as int, z as int),
                        column.has_foliage == old(column).has_foliage,
                        forall|i: int|
                            0 <= i < 16 ==> (
                            #[trigger] column.spec_chunks()[i]).same_except_blocks(
                                old(column).spec_chunks()[i],
                            ),
                    decreases 256 - y,
                {
                    let s = samples[(y * 256 + z * 16 + x) as usize];
                    let b = if y <= 2 {
                        BlockID::Bedrock
                    } else if field_solid(s, y) {
                        if y == h {
                            BlockID::GrassBlock
                        } else if y + 3 >= h && y < h {
                            BlockID::Dirt
                        } else {
                            BlockID::Stone
                        }
                    } else {
                        BlockID::Air
                    };
                    column.set_block_in_chunk(x, y, z, b);
                    y = y + 1;
                }
                x = x + 1;
            }
            z = z + 1;
        }
    }


/// Index into the 18x18 oversampled tree-noise grid, which covers the
/// column's footprint plus one cell of margin on every side.
pub open spec fn grid_index(i: int, j: int) -> int {
    18 * i + j
}

/// The grid cell is a strict local maximum: its value exceeds all
/// eight neighbours'.
pub open spec fn spec_tree_max(samples: Seq<i64>, i: int, j: int) -> bool {
    forall|i2: int, j2: int|
        #![trigger samples[grid_index(i2, j2)]]
        i - 1 <= i2 <= i + 1 && j - 1 <= j2 <= j + 1 && !(i2 == i && j2 == j) ==> samples[grid_index(
            i2,
            j2,
        )] < samples[grid_index(i, j)]
}

/// Detect tree placements for one column: oversample the local noise
/// grid one cell beyond the footprint and select the strict local
/// maxima; each maximum later becomes a trunk and canopy.
pub fn compute_tree_placement_in_chunk(samples: &Vec<i64>) -> (r: Vec<(u32, u32)>)
    requires
        samples@.len() == 324,
    ensures
        forall|k: int|
            0 <= k < r@.len() ==> (#[trigger] r@[k]).0 < 16 && r@[k].1 < 16 && spec_tree_max(
                samples@,
                r@[k].1 + 1,
                r@[k].0 + 1,
            ),
        forall|a: u32, b: u32|
            a < 16 && b < 16 && spec_tree_max(samples@, b as int + 1, a as int + 1)
                ==> r@.contains((a, b)),
        forall|k1: int, k2: int| 0 <= k1 < k2 < r@.len() ==> r@[k1] != r@[k2],
{
    let mut r: Vec<(u32, u32)> = Vec::new();
    let mut i: u32 = 1;
    while i < 17
        invariant
            samples@.len() == 324,
            1 <= i <= 17,
            forall|k: int|
                0 <= k < r@.len() ==> (#[trigger] r@[k]).0 < 16 && r@[k].1 < 16 && spec_tree_max(
                    samples@,
                    r@[k].1 + 1,
                    r@[k].0 + 1,
                ),
            forall|a: u32, b: u32|
                a < 16 && b < 16 && b + 1 < i && spec_tree_max(samples@, b as int + 1, a as int + 1)
                    ==> r@.contains((a, b)),
            forall|k: int| 0 <= k < r@.len() ==> (#[trigger] r@[k]).1 + 1 < i,
            forall|k1: int, k2: int| 0 <= k1 < k2 < r@.len() ==> r@[k1] != r@[k2],
        decreases 17 - i,
    {
        let mut j: u32 = 1;
        while j < 17
            invariant
                samples@.len() == 324,
                1 <= i < 17,
                1 <= j <= 17,
                forall|k: int|
                    0 <= k < r@.len() ==> (#[trigger] r@[k]).0 < 16 && r@[k].1 < 16
                        && spec_tree_max(samples@, r@[k].1 + 1, r@[k].0 + 1),
                forall|a: u32, b: u32|
                    a < 16 && b < 16 && (b + 1 < i || (b + 1 == i && a + 1 < j)) && spec_tree_max(
                        samples@,
                        b as int + 1,
                        a as int + 1,
                    ) ==> r@.contains((a, b)),
                forall|k: int|
                    0 <= k < r@.len() ==> (#[trigger] r@[k]).1 + 1 < i || (r@[k].1 + 1 == i
                        && r@[k].0 + 1 < j),
                forall|k1: int, k2: int| 0 <= k1 < k2 < r@.len() ==> r@[k1] != r@[k2],
            decreases 17 - j,
        {
            let center = samples[(18 * i + j) as usize];
            let is_max = samples[(18 * (i - 1) + (j - 1)) as usize] < center && samples[(18 * (i
                - 1) + j) as usize] < center && samples[(18 * (i - 1) + (j + 1)) as usize] < center
                && samples[(18 * i + (j - 1)) as usize] < center && samples[(18 * i + (j + 1))
                as usize] < center && samples[(18 * (i + 1) + (j - 1)) as usize] < center
                && samples[(18 * (i + 1) + j) as usize] < center && samples[(18 * (i + 1) + (j + 1))
                as usize] < center;
            let ghost r_old = r@;
            if is_max {
                r.push((j - 1, i - 1));
                proof {
                    assert(r@[r@.len() - 1] == ((j - 1) as u32, (i - 1) as u32));
                    assert forall|i2: int, j2: int|
                        #![trigger samples@[grid_index(i2, j2)]]
                        i - 1 <= i2 <= i + 1 && j - 1 <= j2 <= j + 1 && !(i2 == i && j2 == j)
                            implies samples@[grid_index(i2, j2)] < samples@[grid_index(
                            i as int,
                            j as int,
                        )] by {
                        assert(samples@[grid_index(i as int - 1, j as int - 1)] < samples@[
                        grid_index(i as int, j as int)]);
                        assert(samples@[grid_index(i as int - 1, j as int)] < samples@[grid_index(
                            i as int,
                            j as int,
                        )]);
                        assert(samples@[grid_index(i as int - 1, j as int + 1)] < samples@[
                        grid_index(i as int, j as int)]);
                        assert(samples@[grid_index(i as int, j as int - 1)] < samples@[grid_index(
                            i as int,
                            j as int,
                        )]);
                        assert(samples@[grid_index(i as int, j as int + 1)] < samples@[grid_index(
                            i as int,
                            j as int,
                        )]);
                        assert(samples@[grid_index(i as int + 1, j as int - 1)] < samples@[
                        grid_index(i as int, j as int)]);
                        assert(samples@[grid_index(i as int + 1, j as int)] < samples@[grid_index(
                            i as int,
                            j as int,
                        )]);
                        assert(samples@[grid_index(i as int + 1, j as int + 1)] < samples@[
                        grid_index(i as int, j as int)]);
                    }
                    assert(spec_tree_max(samples@, i as int, j as int));
                }
            } else {
                proof {
                    if spec_tree_max(samples@, i as int, j as int) {
                        assert(samples@[grid_index(i as int - 1, j as int - 1)] < samples@[
                        grid_index(i as int, j as int)]);
                        assert(samples@[grid_index(i as int - 1, j as int)] < samples@[grid_index(
                            i as int,
                            j as int,
                        )]);
                        assert(samples@[grid_index(i as int - 1, j as int + 1)] < samples@[
                        grid_index(i as int, j as int)]);
                        assert(samples@[grid_index(i as int, j as int - 1)] < samples@[grid_index(
                            i as int,
                            j as int,
                        )]);
                        assert(samples@[grid_index(i as int, j as int + 1)] < samples@[grid_index(
                            i as int,
                            j as int,
                        )]);
                        assert(samples@[grid_index(i as int + 1, j as int - 1)] < samples@[
                        grid_index(i as int, j as int)]);
                        assert(samples@[grid_index(i as int + 1, j as int)] < samples@[grid_index(
                            i as int,
                            j as int,
                        )]);
                        assert(samples@[grid_index(i as int + 1, j as int + 1)] < samples@[
                        grid_index(i as int, j as int)]);
                        assert(false);
                    }
                }
            }
            proof {
                assert forall|a: u32, b: u32|
                    a < 16 && b < 16 && (b + 1 < i || (b + 1 == i && a + 1 < j + 1))
                        && spec_tree_max(samples@, b as int + 1, a as int + 1) implies r@.contains(
                    (a, b),
                ) by {
                    if b + 1 < i || (b + 1 == i && a + 1 < j) {
                        assert(r_old.contains((a, b)));
                        if r@.len() > r_old.len() {
                            crate::discovery::lemma_push_preserves_contains(
                                r_old,
                                r@[r@.len() - 1],
                                (a, b),
                            );
                        }
                    } else {
                        assert(b + 1 == i && a + 1 == j);
                        assert(r@[r@.len() - 1] == (a, b));
                    }
                }
            }
            j = j + 1;
        }
        i = i + 1;
    }
    r
}



/// The block a tree places at an offset from its base cell (the
/// surface block beneath the trunk): a five-block trunk, two wide
/// canopy layers, one narrow layer, and a plus-shaped cap.
pub open spec fn spec_tree_block_offset(dx: int, dy: int, dz: int) -> Option<BlockID> {
    if dx == 0 && dz == 0 && 1 <= dy <= 5 {
        Some(BlockID::OakLog)
    } else if 3 <= dy <= 4 && -2 <= dx <= 2 && -2 <= dz <= 2 && !(dx == 0 && dz == 0) {
        Some(BlockID::OakLeaves)
    } else if dy == 5 && -1 <= dx <= 1 && -1 <= dz <= 1 && !(dx == 0 && dz == 0) {
        Some(BlockID::OakLeaves)
    } else if dy == 6 && ((dx == 0 && dz == 0) || crate::discovery::iabs(dx)
        + crate::discovery::iabs(dz) == 1) {
        Some(BlockID::OakLeaves)
    } else {
        None
    }
}

fn tree_block_offset(dx: i32, dy: i32, dz: i32) -> (r: Option<BlockID>)
    requires
        -8 <= dx <= 8,
        -8 <= dy <= 8,
        -8 <= dz <= 8,
    ensures
        r == spec_tree_block_offset(dx as int, dy as int, dz as int),
{
    if dx == 0 && dz == 0 && 1 <= dy && dy <= 5 {
        Some(BlockID::OakLog)
    } else if 3 <= dy && dy <= 4 && -2 <= dx && dx <= 2 && -2 <= dz && dz <= 2 && !(dx == 0 && dz
        == 0) {
        Some(BlockID::OakLeaves)
    } else if dy == 5 && -1 <= dx && dx <= 1 && -1 <= dz && dz <= 1 && !(dx == 0 && dz == 0) {
        Some(BlockID::OakLeaves)
    } else if dy == 6 && ((dx == 0 && dz == 0) || (if dx >= 0 {
        dx
    } else {
        -dx
    }) + (if dz >= 0 {
        dz
    } else {
        -dz
    }) == 1) {
        Some(BlockID::OakLeaves)
    } else {
        None
    }
}

/// Whether the offset has already been handled once the sweep stands
/// at (dx, dy, dz).
pub open spec fn spec_tree_done(dx: int, dy: int, dz: int, ox: int, oy: int, oz: int) -> bool {
    ox < dx || (ox == dx && (oy < dy || (oy == dy && oz < dz)))
}

/// Place one tree through ordinary block writes: every cell of the
/// tree's bounding box whose offset carries a tree block is written
/// with it (where its chunk is loaded), and no cell outside the box
/// changes.  The writes go through the normal generation path, so
/// edits to already uploaded chunks land in the change list.
pub fn place_tree(m: &mut crate::chunk_manager::ChunkManager, x: i32, y: i32, z: i32)
    requires
        old(m).wf(),
        -2_000_000_000 <= x <= 2_000_000_000,
        -2_000_000_000 <= y <= 2_000_000_000,
        -2_000_000_000 <= z <= 2_000_000_000,
    ensures
        final(m).wf(),
        final(m).spec_coords() == old(m).spec_coords(),
        final(m).spec_columns().dom() == old(m).spec_columns().dom(),
        forall|i: int|
            0 <= i < old(m).spec_changelist().len() ==> final(m).spec_changelist()[i] == old(
                m,
            ).spec_changelist()[i],
        final(m).spec_changelist().len() >= old(m).spec_changelist().len(),
        forall|a: i32, b: i32|
            #[trigger] final(m).spec_has_column(a, b) ==> final(m).spec_column_at(a, b).has_foliage
                == old(m).spec_column_at(a, b).has_foliage && final(m).spec_column_at(
                a,
                b,
            ).spec_heights() == old(m).spec_column_at(a, b).spec_heights(),
        forall|x2: int, y2: int, z2: int|
            i32::MIN <= x2 <= i32::MAX && i32::MIN <= y2 <= i32::MAX && i32::MIN <= z2 <= i32::MAX
                ==> #[trigger] final(m).spec_block_at_world(x2, y2, z2) == (match
            spec_tree_block_offset(x2 - x, y2 - y, z2 - z) {
                Some(b) => if old(m).spec_block_at_world(x2, y2, z2) is Some {
                    Some(b)
                } else {
                    None
                },
                None => old(m).spec_block_at_world(x2, y2, z2),
            }),
{
    let mut dx: i32 = -2;
    while dx <= 2
        invariant
            m.wf(),
            -2_000_000_000 <= x <= 2_000_000_000,
            -2_000_000_000 <= y <= 2_000_000_000,
            -2_000_000_000 <= z <= 2_000_000_000,
            -2 <= dx <= 3,
            m.spec_coords() == old(m).spec_coords(),
            m.spec_columns().dom() == old(m).spec_columns().dom(),
            forall|i: int|
                0 <= i < old(m).spec_changelist().len() ==> m.spec_changelist()[i] == old(
                    m,
                ).spec_changelist()[i],
            m.spec_changelist().len() >= old(m).spec_changelist().len(),
            forall|a: i32, b: i32|
                #[trigger] m.spec_has_column(a, b) ==> m.spec_column_at(a, b).has_foliage == old(
                    m,
                ).spec_column_at(a, b).has_foliage && m.spec_column_at(a, b).spec_heights() == old(
                    m,
                ).spec_column_at(a, b).spec_heights(),
            forall|x2: int, y2: int, z2: int|
                i32::MIN <= x2 <= i32::MAX && i32::MIN <= y2 <= i32::MAX && i32::MIN <= z2
                    <= i32::MAX ==> #[trigger] m.spec_block_at_world(x2, y2, z2) == (match
                spec_tree_block_offset(x2 - x, y2 - y, z2 - z) {
                    Some(b) => if spec_tree_done(dx as int, 1, -2, x2 - x, y2 - y, z2 - z) {
                        if old(m).spec_block_at_world(x2, y2, z2) is Some {
                            Some(b)
                        } else {
                            None
                        }
                    } else {
                        old(m).spec_block_at_world(x2, y2, z2)
                    },
                    None => old(m).spec_block_at_world(x2, y2, z2),
                }),
        decreases 3 - dx,
    {
        let mut dy: i32 = 1;
        while dy <= 6
            invariant
                m.wf(),
                -2_000_000_000 <= x <= 2_000_000_000,
                -2_000_000_000 <= y <= 2_000_000_000,
                -2_000_000_000 <= z <= 2_000_000_000,
                -2 <= dx <= 2,
                1 <= dy <= 7,
                m.spec_coords() == old(m).spec_coords(),
                m.spec_columns().dom() == old(m).spec_columns().dom(),
                forall|i: int|
                    0 <= i < old(m).spec_changelist().len() ==> m.spec_changelist()[i] == old(
                        m,
                    ).spec_changelist()[i],
                m.spec_changelist().len() >= old(m).spec_changelist().len(),
            forall|a: i32, b: i32|
                    #[trigger] m.spec_has_column(a, b) ==> m.spec_column_at(a, b).has_foliage == old(
                        m,
                    ).spec_column_at(a, b).has_foliage && m.spec_column_at(a, b).spec_heights()
                        == old(m).spec_column_at(a, b).spec_heights(),
                forall|x2: int, y2: int, z2: int|
                    i32::MIN <= x2 <= i32::MAX && i32::MIN <= y2 <= i32::MAX && i32::MIN <= z2
                        <= i32::MAX ==> #[trigger] m.spec_block_at_world(x2, y2, z2) == (match
                    spec_tree_block_offset(x2 - x, y2 - y, z2 - z) {
                        Some(b) => if spec_tree_done(dx as int, dy as int, -2, x2 - x, y2 - y, z2
                            - z) {
                            if old(m).spec_block_at_world(x2, y2, z2) is Some {
                                Some(b)
                            } else {
                                None
                            }
                        } else {
                            old(m).spec_block_at_world(x2, y2, z2)
                        },
                        None => old(m).spec_block_at_world(x2, y2, z2),
                    }),
            decreases 7 - dy,
        {
            let mut dz: i32 = -2;
            while dz <= 2
                invariant
                    m.wf(),
                    -2_000_000_000 <= x <= 2_000_000_000,
                    -2_000_000_000 <= y <= 2_000_000_000,
                    -2_000_000_000 <= z <= 2_000_000_000,
                    -2 <= dx <= 2,
                    1 <= dy <= 6,
                    -2 <= dz <= 3,
                    m.spec_coords() == old(m).spec_coords(),
                    m.spec_columns().dom() == old(m).spec_columns().dom(),
                    forall|i: int|
                        0 <= i < old(m).spec_changelist().len() ==> m.spec_changelist()[i] == old(
                            m,
                        ).spec_changelist()[i],
                    m.spec_changelist().len() >= old(m).spec_changelist().len(),
                    forall|a: i32, b: i32|
                        #[trigger] m.spec_has_column(a, b) ==> m.spec_column_at(a, b).has_foliage
                            == old(m).spec_column_at(a, b).has_foliage && m.spec_column_at(a, b)
                            .spec_heights() == old(m).spec_column_at(a, b).spec_heights(),
                    forall|x2: int, y2: int, z2: int|
                        i32::MIN <= x2 <= i32::MAX && i32::MIN <= y2 <= i32::MAX && i32::MIN <= z2
                            <= i32::MAX ==> #[trigger] m.spec_block_at_world(x2, y2, z2) == (match
                        spec_tree_block_offset(x2 - x, y2 - y, z2 - z) {
                            Some(b) => if spec_tree_done(
                                dx as int,
                                dy as int,
                                dz as int,
                                x2 - x,
                                y2 - y,
                                z2 - z,
                            ) {
                                if old(m).spec_block_at_world(x2, y2, z2) is Some {
                                    Some(b)
                                } else {
                                    None
                                }
                            } else {
                                old(m).spec_block_at_world(x2, y2, z2)
                            },
                            None => old(m).spec_block_at_world(x2, y2, z2),
                        }),
                decreases 3 - dz,
            {
                let ghost mid = *m;
                match tree_block_offset(dx, dy, dz) {
                    Some(b) => {
                        let wx = x + dx;
                        let wy = y + dy;
                        let wz = z + dz;
                        let wrote = m.set_block(wx, wy, wz, b);
                        proof {
                            assert forall|a2: i32, b2: i32|
                                #[trigger] m.spec_has_column(a2, b2) implies m.spec_column_at(
                                a2,
                                b2,
                            ).has_foliage == old(m).spec_column_at(a2, b2).has_foliage && m
                                .spec_column_at(a2, b2).spec_heights() == old(m).spec_column_at(
                                a2,
                                b2,
                            ).spec_heights() by {
                                assert(mid.spec_has_column(a2, b2) ==> mid.spec_column_at(
                                    a2,
                                    b2,
                                ).has_foliage == old(m).spec_column_at(a2, b2).has_foliage
                                    && mid.spec_column_at(a2, b2).spec_heights() == old(
                                    m,
                                ).spec_column_at(a2, b2).spec_heights());
                                let k2 = crate::chunk_manager::spec_column_key(a2, b2);
                                let key = crate::chunk_manager::spec_column_key(
                                    crate::coords::chunk_coord(wx as int) as i32,
                                    crate::coords::chunk_coord(wz as int) as i32,
                                );
                                if wrote && k2 == key {
                                    crate::chunk_manager::lemma_column_key_injective(
                                        a2,
                                        b2,
                                        crate::coords::chunk_coord(wx as int) as i32,
                                        crate::coords::chunk_coord(wz as int) as i32,
                                    );
                                } else {
                                    if wrote {
                                        assert(m.spec_columns()[k2] == mid.spec_columns()[k2]);
                                    }
                                }
                                if wrote {
                                    assert(m.spec_columns().dom() == mid.spec_columns().dom());
                                }
                                assert(mid.spec_has_column(a2, b2));
                            }
                            if wrote {
                                crate::chunk_manager::ChunkManager::lemma_set_block_world(
                                    mid,
                                    *m,
                                    0,
                                    wx,
                                    wy,
                                    wz,
                                    b,
                                );
                            }
                            assert forall|x2: int, y2: int, z2: int|
                                i32::MIN <= x2 <= i32::MAX && i32::MIN <= y2 <= i32::MAX
                                    && i32::MIN <= z2 <= i32::MAX implies
                                #[trigger] m.spec_block_at_world(x2, y2, z2) == (match
                            spec_tree_block_offset(x2 - x, y2 - y, z2 - z) {
                                Some(bb) => if spec_tree_done(
                                    dx as int,
                                    dy as int,
                                    dz as int + 1,
                                    x2 - x,
                                    y2 - y,
                                    z2 - z,
                                ) {
                                    if old(m).spec_block_at_world(x2, y2, z2) is Some {
                                        Some(bb)
                                    } else {
                                        None
                                    }
                                } else {
                                    old(m).spec_block_at_world(x2, y2, z2)
                                },
                                None => old(m).spec_block_at_world(x2, y2, z2),
                            }) by {
                                if x2 == wx as int && y2 == wy as int && z2 == wz as int {
                                    if !wrote {
                                        assert(mid.spec_block_at_world(x2, y2, z2) is None);
                                    }
                                } else {
                                    assert(m.spec_block_at_world(x2, y2, z2)
                                        == mid.spec_block_at_world(x2, y2, z2));
                                }
                            }
                        }
                    },
                    None => {
                        proof {
                            assert forall|x2: int, y2: int, z2: int|
                                i32::MIN <= x2 <= i32::MAX && i32::MIN <= y2 <= i32::MAX
                                    && i32::MIN <= z2 <= i32::MAX implies
                                #[trigger] m.spec_block_at_world(x2, y2, z2) == (match
                            spec_tree_block_offset(x2 - x, y2 - y, z2 - z) {
                                Some(bb) => if spec_tree_done(
                                    dx as int,
                                    dy as int,
                                    dz as int + 1,
                                    x2 - x,
                                    y2 - y,
                                    z2 - z,
                                ) {
                                    if old(m).spec_block_at_world(x2, y2, z2) is Some {
                                        Some(bb)
                                    } else {
                                        None
                                    }
                                } else {
                                    old(m).spec_block_at_world(x2, y2, z2)
                                },
                                None => old(m).spec_block_at_world(x2, y2, z2),
                            }) by {}
                        }
                    },
                }
                dz = dz + 1;
            }
            dy = dy + 1;
        }
        dx = dx + 1;
    }
}


} // verus!
