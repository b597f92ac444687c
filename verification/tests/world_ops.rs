use voxelworld::block::BlockID;
use voxelworld::chunk_manager::{ChangeEntry, ChunkManager};
use voxelworld::column::ChunkColumn;
use voxelworld::loading::group_changes;
use voxelworld::terrain::{compute_tree_placement_in_chunk, generate_terrain_column, place_tree};
use voxelworld::upload::UploadQueue;

fn full_mesh_list() -> Vec<(u32, u32, u32)> {
    voxelworld::loading::all_block_coords()
}

#[test]
fn face_symmetry_across_boundary() {
    let mut m = ChunkManager::new();
    m.single_chunk(); // (0,0) full of cobblestone
    m.add_chunk_column((1, 0), ChunkColumn::new()); // empty neighbour
    // put one block in the neighbour right across the boundary
    assert!(m.set_block(16, 5, 5, BlockID::Stone));
    let list = full_mesh_list();
    m.update_blocks(0, 0, 0, &list);
    m.update_blocks(1, 0, 0, &list);
    let a = m.get_chunk(0, 0, 0).unwrap();
    // boundary block (15,5,5) of A faces the stone cell: not active
    assert!(!a.get_active_face(15, 5, 5, 0));
    // one cell over, (15,6,5) of A faces air in B: active
    assert!(a.get_active_face(15, 6, 5, 0));
    let b = m.get_chunk(1, 0, 0).unwrap();
    // B's stone block faces cobblestone on its -x side: not active
    assert!(!b.get_active_face(0, 5, 5, 1));
    // and open air on its +x side: active
    assert!(b.get_active_face(0, 5, 5, 0));
}

#[test]
fn targeted_remesh_is_idempotent() {
    let mut m = ChunkManager::new();
    m.single_chunk();
    m.set_block(4, 4, 4, BlockID::Air);
    let coords: Vec<(u32, u32, u32)> = vec![(3, 4, 4), (4, 4, 4), (5, 4, 4), (4, 3, 4)];
    m.update_blocks(0, 0, 0, &coords);
    let snapshot = |m: &ChunkManager| {
        let c = m.get_chunk(0, 0, 0).unwrap();
        let mut faces = Vec::new();
        let mut ao = Vec::new();
        for x in 0..16u32 {
            for y in 0..16u32 {
                for z in 0..16u32 {
                    for d in 0..6u32 {
                        faces.push(c.get_active_face(x, y, z, d));
                    }
                    ao.push(c.get_ao(x, y, z));
                }
            }
        }
        (faces, ao)
    };
    let first = snapshot(&m);
    m.update_blocks(0, 0, 0, &coords);
    let second = snapshot(&m);
    assert_eq!(first.0, second.0);
    assert_eq!(first.1, second.1);
}

#[test]
fn changelist_dedup_and_drain() {
    let mut m = ChunkManager::new();
    m.single_chunk();
    m.mark_chunk_uploaded(0, 0, 0, 9, 99);
    assert!(m.put_block(1, 2, 3, BlockID::Dirt));
    assert!(m.put_block(1, 2, 3, BlockID::Dirt)); // identical edit
    assert!(m.put_block(1, 2, 4, BlockID::Dirt)); // a different one
    let drained = m.drain_changelist();
    assert_eq!(drained.len(), 2);
    let again = m.drain_changelist();
    assert_eq!(again.len(), 0);
}

#[test]
fn edits_to_unuploaded_chunks_stay_off_the_changelist() {
    let mut m = ChunkManager::new();
    m.single_chunk();
    assert!(m.put_block(1, 2, 3, BlockID::Dirt));
    assert_eq!(m.drain_changelist().len(), 0);
}

#[test]
fn upload_queue_pops_in_priority_order() {
    let mut q = UploadQueue::new();
    q.push(1, (1, 0, 0));
    q.push(5, (5, 0, 0));
    q.push(3, (3, 0, 0));
    assert_eq!(q.pop_max(), Some((5, (5, 0, 0))));
    assert_eq!(q.pop_max(), Some((3, (3, 0, 0))));
    assert_eq!(q.pop_max(), Some((1, (1, 0, 0))));
    assert_eq!(q.pop_max(), None);
}

#[test]
fn terrain_layers_from_flat_field() {
    // a zero sample is solid up to y = 112 under the depth bias
    let samples: Vec<i64> = vec![0; 65536];
    let mut column = ChunkColumn::new();
    generate_terrain_column(&mut column, &samples);
    assert_eq!(column.get_height(7, 9), 112);
    assert_eq!(column.get_block(7, 0, 9), BlockID::Bedrock);
    assert_eq!(column.get_block(7, 2, 9), BlockID::Bedrock);
    assert_eq!(column.get_block(7, 3, 9), BlockID::Stone);
    assert_eq!(column.get_block(7, 108, 9), BlockID::Stone);
    assert_eq!(column.get_block(7, 109, 9), BlockID::Dirt);
    assert_eq!(column.get_block(7, 111, 9), BlockID::Dirt);
    assert_eq!(column.get_block(7, 112, 9), BlockID::GrassBlock);
    assert_eq!(column.get_block(7, 113, 9), BlockID::Air);
    assert_eq!(column.get_block(7, 255, 9), BlockID::Air);
}

#[test]
fn tree_placement_picks_strict_maxima() {
    let mut samples: Vec<i64> = vec![0; 324];
    samples[18 * 5 + 7] = 100; // one strict peak at grid (i=5, j=7)
    let r = compute_tree_placement_in_chunk(&samples);
    assert_eq!(r, vec![(6, 4)]);
}

#[test]
fn tree_shape_from_base() {
    let mut m = ChunkManager::new();
    m.add_chunk_column((0, 0), ChunkColumn::new());
    place_tree(&mut m, 5, 10, 5);
    for y in 11..=15 {
        assert_eq!(m.get_block(5, y, 5), Some(BlockID::OakLog));
    }
    assert_eq!(m.get_block(5, 16, 5), Some(BlockID::OakLeaves)); // cap centre
    assert_eq!(m.get_block(6, 16, 5), Some(BlockID::OakLeaves)); // cap arm
    assert_eq!(m.get_block(6, 16, 6), Some(BlockID::Air)); // cap diagonal stays open
    assert_eq!(m.get_block(7, 13, 5), Some(BlockID::OakLeaves)); // wide layer
    assert_eq!(m.get_block(6, 15, 6), Some(BlockID::OakLeaves)); // narrow layer
    assert_eq!(m.get_block(5, 17, 5), Some(BlockID::Air));
    assert_eq!(m.get_block(8, 13, 5), Some(BlockID::Air)); // outside the canopy
}

#[test]
fn change_groups_by_chunk_with_max_priority() {
    let entries = vec![
        ChangeEntry { priority: 0, block: BlockID::Stone, x: 5, y: 5, z: 5 },
        ChangeEntry { priority: 2, block: BlockID::Air, x: 6, y: 5, z: 5 },
    ];
    let tasks = group_changes(&entries);
    let t = tasks
        .iter()
        .find(|t| t.chunk_x == 0 && t.chunk_y == 0 && t.chunk_z == 0)
        .expect("the home chunk must have a task");
    assert_eq!(t.priority, 2);
    assert!(t.is_interactive());
    assert!(t.blocks.contains(&(5, 5, 5)));
    assert!(t.blocks.contains(&(6, 5, 5)));
    assert!(t.blocks.contains(&(4, 4, 4)));
    // chunks appear once each
    for (i, a) in tasks.iter().enumerate() {
        for b in tasks.iter().skip(i + 1) {
            assert!(!(a.chunk_x == b.chunk_x && a.chunk_y == b.chunk_y && a.chunk_z == b.chunk_z));
        }
    }
}

#[test]
fn render_list_shows_uploaded_chunks_only() {
    let mut m = ChunkManager::new();
    m.single_chunk();
    assert_eq!(m.render_loaded_chunks().len(), 0);
    m.mark_chunk_uploaded(0, 3, 0, 17, 4242);
    let r = m.render_loaded_chunks();
    assert_eq!(r.len(), 1);
    assert_eq!((r[0].chunk_x, r[0].chunk_y, r[0].chunk_z), (0, 3, 0));
    assert_eq!(r[0].vao, 17);
    assert_eq!(r[0].vertices_drawn, 4242);
}
