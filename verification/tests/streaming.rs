use voxelworld::block::BlockID;
use voxelworld::chunk_manager::ChunkManager;
use voxelworld::column::ChunkColumn;
use voxelworld::discovery::{
    flood_fill_chunks, flood_fill_unfoliated_columns, flood_fill_unloaded_columns,
};
use voxelworld::loading::ChunkLoading;
use voxelworld::terrain::generate_terrain_column;

/// Field samples for one column that make every cell up to `top` solid.
fn flat_samples(top: i64) -> Vec<i64> {
    // solid exactly when 64*s + 64000 + 1700*y < 256000; pick s per y
    let mut v = Vec::with_capacity(65536);
    for y in 0..256i64 {
        for _zx in 0..256 {
            v.push(if y <= top { -100_000 } else { 100_000 });
        }
    }
    // index order is y-major, matching sample_index(x, y, z) = y*256 + z*16 + x
    v
}

#[test]
fn discovery_stays_in_the_box() {
    let m = ChunkManager::new();
    let r = flood_fill_unloaded_columns(&m, 5, 7, 3);
    assert!(!r.is_empty());
    for &(a, b) in r.iter() {
        assert!((a - 5).abs() <= 3 && (b - 7).abs() <= 3);
    }
    let r3 = flood_fill_chunks(&m, 1, 2, 3, 2);
    for &(a, b, c) in r3.iter() {
        assert!((a - 1).abs() <= 2 && (b - 2).abs() <= 2 && (c - 3).abs() <= 2);
    }
}

#[test]
fn unloaded_discovery_expands_two_rounds() {
    let mut m = ChunkManager::new();
    // a fully loaded 1-ring neighbourhood around the origin
    for a in -1..=1 {
        for b in -1..=1 {
            m.add_chunk_column((a, b), ChunkColumn::new());
        }
    }
    let r = flood_fill_unloaded_columns(&m, 0, 0, 4);
    // even though the first ring is already loaded, the search still
    // expands two rounds and returns the whole near region's misses
    assert!(!r.is_empty());
    for &(a, b) in r.iter() {
        assert!(a.abs() + b.abs() <= 2);
        assert!(m.get_column(a, b).is_none());
    }
    // all four missing cells of the near region come back together
    assert!(r.contains(&(2, 0)));
    assert!(r.contains(&(-2, 0)));
    assert!(r.contains(&(0, 2)));
    assert!(r.contains(&(0, -2)));
    // the loaded diagonal at the same distance is not among them
    assert!(!r.contains(&(1, 1)));
}

#[test]
fn unfoliated_discovery_short_circuits_on_centre() {
    let mut m = ChunkManager::new();
    m.add_chunk_column((0, 0), ChunkColumn::new());
    m.add_chunk_column((1, 0), ChunkColumn::new());
    let r = flood_fill_unfoliated_columns(&m, 0, 0, 2);
    assert_eq!(r, vec![(0, 0)]);
}

#[test]
fn full_cycle_loads_generates_and_enqueues() {
    let render_distance = 2;
    let mut m = ChunkManager::new();
    let mut loading = ChunkLoading::new(render_distance, 8);
    let base = flat_samples(3);
    // discovery / generation, until no column is missing
    loop {
        let missing = flood_fill_unloaded_columns(&m, 0, 0, render_distance + 2);
        if missing.is_empty() {
            break;
        }
        for &(a, b) in missing.iter() {
            let mut column = loading.take_reset_column();
            generate_terrain_column(&mut column, &base);
            m.add_chunk_column((a, b), column);
        }
    }
    // foliage, with a flat tree grid placing no trees
    let tree_grid: Vec<i64> = vec![0; 324];
    loop {
        let unfoliated = flood_fill_unfoliated_columns(&m, 0, 0, render_distance);
        if unfoliated.is_empty() {
            break;
        }
        for &(a, b) in unfoliated.iter() {
            voxelworld::loading::place_foliage(&mut m, a, b, &tree_grid);
        }
    }
    // meshing, until discovery finds nothing ungenerated; like the
    // coordinator, perform the budgeted uploads between passes
    let mut enqueued: Vec<(i32, i32, i32)> = Vec::new();
    loop {
        let work = flood_fill_chunks(&m, 0, 0, 0, render_distance);
        let mut progressed = false;
        for &(a, b, c) in work.iter() {
            let ungenerated = match m.get_chunk(a, b, c) {
                Some(ch) => !ch.is_generated,
                None => false,
            };
            if ungenerated {
                loading.mesh_chunk(&mut m, a, b, c);
                progressed = true;
            }
        }
        for (_priority, (a, b, c)) in loading.pop_uploads() {
            enqueued.push((a, b, c));
            m.mark_chunk_uploaded(a, b, c, 1, 1);
        }
        if !progressed {
            break;
        }
    }
    // every column within Chebyshev distance 4 exists
    for a in -4..=4 {
        for b in -4..=4 {
            assert!(m.get_column(a, b).is_some(), "column missing");
        }
    }
    // every chunk within distance 2 holding a block is generated and
    // has an upload request enqueued
    for a in -2..=2 {
        for b in 0..=2 {
            for c in -2..=2 {
                let ch = m.get_chunk(a, b, c).unwrap();
                assert!(ch.is_generated);
                let solid = !ch.is_empty();
                if solid {
                    assert!(
                        enqueued.contains(&(a, b, c))
                            || loading.chunk_upload_priority_queue.entries.contains(&(
                                0,
                                (a, b, c),
                            )),
                        "missing upload request"
                    );
                }
            }
        }
    }
}

#[test]
fn eviction_removes_and_pools_distant_columns() {
    let mut m = ChunkManager::new();
    let mut loading = ChunkLoading::new(2, 8);
    for a in -4..=4 {
        for b in -4..=4 {
            m.add_chunk_column((a, b), ChunkColumn::new());
        }
    }
    let pool_before = loading.chunk_column_pool.len();
    // the viewer's chunk moves from (0,0) to (10,0)
    loading.evict_distant(&mut m, 10, 0, 0);
    let mut removed = 0;
    for a in -4..=4i32 {
        for b in -4..=4i32 {
            let far = (a - 10).abs() > 4 || b.abs() > 4;
            if far {
                assert!(m.get_column(a, b).is_none(), "distant column kept");
                removed += 1;
            } else {
                assert!(m.get_column(a, b).is_some(), "near column lost");
            }
        }
    }
    assert!(removed > 0);
    assert_eq!(loading.chunk_column_pool.len(), pool_before + removed);
}

#[test]
fn gpu_resources_release_beyond_render_distance() {
    let mut m = ChunkManager::new();
    let mut loading = ChunkLoading::new(2, 8);
    m.add_chunk_column((0, 0), ChunkColumn::new());
    m.add_chunk_column((3, 0), ChunkColumn::new());
    m.mark_chunk_uploaded(0, 0, 0, 5, 50);
    m.mark_chunk_uploaded(3, 0, 0, 6, 60);
    // viewer at (0,0,0): the column at (3,0) is within rd+2 but its
    // chunks are beyond rd, so they lose their GPU state and stay loaded
    loading.evict_distant(&mut m, 0, 0, 0);
    assert!(m.get_column(3, 0).is_some());
    let far_chunk = m.get_chunk(3, 0, 0).unwrap();
    assert!(!far_chunk.is_uploaded_to_gpu);
    assert_eq!(far_chunk.vao, 0);
    let near_chunk = m.get_chunk(0, 0, 0).unwrap();
    assert!(near_chunk.is_uploaded_to_gpu);
    assert_eq!(near_chunk.vao, 5);
}

#[test]
fn remesh_tasks_flow_back_into_uploads() {
    let mut m = ChunkManager::new();
    let mut loading = ChunkLoading::new(2, 8);
    m.single_chunk();
    m.mark_chunk_uploaded(0, 0, 0, 11, 110);
    assert!(m.put_block(5, 5, 5, BlockID::Air));
    let drained = m.drain_changelist();
    assert_eq!(drained.len(), 1);
    let tasks = voxelworld::loading::group_changes(&drained);
    let mut hit_home = false;
    for t in tasks.iter() {
        if t.chunk_x == 0 && t.chunk_y == 0 && t.chunk_z == 0 {
            hit_home = true;
            assert!(t.is_interactive());
        }
        loading.apply_remesh_task(&mut m, t);
    }
    assert!(hit_home);
    // the edited, uploaded chunk asked to be uploaded again at its priority
    assert!(loading.chunk_upload_priority_queue.entries.contains(&(1, (0, 0, 0))));
    // and the budgeted drain hands it out
    let ups = loading.pop_uploads();
    assert!(ups.contains(&(1, (0, 0, 0))));
}

#[test]
fn only_one_expansion_in_flight() {
    let mut loading = ChunkLoading::new(2, 8);
    assert!(loading.try_begin_expansion());
    assert!(!loading.try_begin_expansion()); // a cycle is running
    loading.finish_expansion();
    assert!(loading.try_begin_expansion()); // free again after completion
}

#[test]
fn pooled_columns_come_back_reset() {
    let mut m = ChunkManager::new();
    let mut loading = ChunkLoading::new(0, 4);
    // dirty a column, evict it far away, then reuse it from the pool
    m.add_chunk_column((50, 0), ChunkColumn::new());
    assert!(m.set_block(16 * 50, 7, 3, BlockID::Stone));
    loading.evict_distant(&mut m, 0, 0, 0);
    assert!(m.get_column(50, 0).is_none());
    let fresh = loading.take_reset_column();
    assert_eq!(fresh.get_block(0, 7, 3), BlockID::Air);
    assert_eq!(fresh.get_height(0, 3), 0);
    assert!(!fresh.has_foliage);
}

#[test]
fn chunk_discovery_short_circuits_on_pending_centre() {
    let mut m = ChunkManager::new();
    m.add_chunk_column((0, 0), ChunkColumn::new());
    // the centre chunk is not generated yet: it comes back alone
    let r = flood_fill_chunks(&m, 0, 0, 0, 2);
    assert_eq!(r, vec![(0, 0, 0)]);
}

#[test]
fn upload_budget_caps_a_frame() {
    let mut loading = ChunkLoading::new(2, 2);
    loading.chunk_upload_priority_queue.push(4, (0, 0, 0));
    loading.chunk_upload_priority_queue.push(9, (1, 0, 0));
    loading.chunk_upload_priority_queue.push(1, (2, 0, 0));
    let first = loading.pop_uploads();
    assert_eq!(first, vec![(9, (1, 0, 0)), (4, (0, 0, 0))]);
    let second = loading.pop_uploads();
    assert_eq!(second, vec![(1, (2, 0, 0))]);
    assert!(loading.pop_uploads().is_empty());
}

#[test]
fn foliage_places_detected_trees() {
    let mut m = ChunkManager::new();
    m.add_chunk_column((0, 0), ChunkColumn::new());
    // raise the surface at (3, 4) so the tree has ground to stand on
    {
        let col = m.remove_chunk_column(&(0, 0)).unwrap();
        let mut col = col;
        col.set_block(3, 20, 4, BlockID::Stone);
        m.add_chunk_column((0, 0), col);
    }
    let mut grid: Vec<i64> = vec![0; 324];
    grid[18 * 5 + 4] = 100; // one strict peak: site (j-1, i-1) = (3, 4)
    let sites = voxelworld::loading::place_foliage(&mut m, 0, 0, &grid);
    assert_eq!(sites, vec![(3, 4)]);
    assert!(m.get_column(0, 0).unwrap().has_foliage);
    // trunk above the surface height of 20, then the canopy cap
    for y in 21..=25 {
        assert_eq!(m.get_block(3, y, 4), Some(BlockID::OakLog));
    }
    assert_eq!(m.get_block(3, 26, 4), Some(BlockID::OakLeaves));
    assert_eq!(m.get_block(5, 23, 4), Some(BlockID::OakLeaves));
    assert_eq!(m.get_block(3, 27, 4), Some(BlockID::Air));
}
