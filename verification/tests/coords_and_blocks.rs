use voxelworld::block::BlockID;
use voxelworld::chunk_manager::ChunkManager;

#[test]
fn coordinate_round_trip_negative() {
    // -1 lies in chunk -1 at local offset 15
    let (cx, cy, cz, bx, by, bz) = ChunkManager::get_chunk_coords(-1, 35, 16);
    assert_eq!((cx, cy, cz), (-1, 2, 1));
    assert_eq!((bx, by, bz), (15, 3, 0));
    let back = ChunkManager::get_global_coords((cx, cy, cz, bx, by, bz));
    assert_eq!(back, (-1, 35, 16));
}

#[test]
fn coordinate_round_trip_many() {
    let cases = [0i32, 1, 15, 16, 17, -1, -15, -16, -17, -100, 255, -256, 12345, -54321];
    for &x in cases.iter() {
        for &y in cases.iter() {
            for &z in cases.iter() {
                let t = ChunkManager::get_chunk_coords(x, y, z);
                assert!(t.3 < 16 && t.4 < 16 && t.5 < 16);
                assert_eq!(ChunkManager::get_global_coords(t), (x, y, z));
            }
        }
    }
}

#[test]
fn block_transparency() {
    assert!(BlockID::Air.is_air());
    assert!(!BlockID::Stone.is_air());
    assert!(BlockID::Air.is_transparent());
    assert!(BlockID::OakLeaves.is_transparent());
    assert!(!BlockID::GrassBlock.is_transparent());
    assert!(BlockID::Air.is_transparent_no_leaves());
    assert!(!BlockID::OakLeaves.is_transparent_no_leaves());
}

#[test]
fn get_and_set_block_through_map() {
    let mut m = ChunkManager::new();
    m.single_chunk();
    // the single column at (0, 0) is full of cobblestone
    assert_eq!(m.get_block(0, 0, 0), Some(BlockID::Cobblestone));
    assert_eq!(m.get_block(15, 255, 15), Some(BlockID::Cobblestone));
    // outside the loaded column, and outside the world height
    assert_eq!(m.get_block(16, 0, 0), None);
    assert_eq!(m.get_block(0, -1, 0), None);
    assert_eq!(m.get_block(0, 256, 0), None);
    // writes land where they were aimed
    assert!(m.set_block(3, 40, 5, BlockID::Dirt));
    assert_eq!(m.get_block(3, 40, 5), Some(BlockID::Dirt));
    assert_eq!(m.get_block(3, 41, 5), Some(BlockID::Cobblestone));
    // a write into an unloaded column reports failure
    assert!(!m.set_block(100, 0, 0, BlockID::Dirt));
    assert!(m.is_solid_block_at(0, 0, 0));
    assert!(!m.is_solid_block_at(100, 0, 0));
}

#[test]
fn active_faces_at_chunk_corner() {
    let mut m = ChunkManager::new();
    m.single_chunk();
    // corner block of the lone cobblestone chunk: faces toward missing
    // neighbours are active, faces toward solid cells are not
    let f = m.get_active_faces_of_block(0, 0, 0);
    assert!(!f.right); // (1,0,0) is cobblestone
    assert!(f.left); // (-1,0,0) is unloaded
    assert!(!f.top); // (0,1,0) is cobblestone
    assert!(f.bottom); // (0,-1,0) is below the world
    assert!(!f.front); // (0,0,1) is cobblestone
    assert!(f.back); // (0,0,-1) is unloaded
}

#[test]
fn ambient_occlusion_counts_neighbours() {
    let mut m = ChunkManager::new();
    m.single_chunk();
    // at the corner only the 2x2x2 sub-cube inside the chunk is loaded:
    // 7 occupied neighbours
    assert_eq!(m.compute_ao_of_block(0, 0, 0), 7);
    // in the interior all 26 neighbours are solid
    assert_eq!(m.compute_ao_of_block(8, 8, 8), 26);
}

#[test]
fn preload_covers_a_small_square() {
    let mut m = ChunkManager::new();
    m.preload_some_chunks();
    for x in 0..2 {
        for z in 0..2 {
            assert!(m.get_column(x, z).is_some());
        }
    }
    assert!(m.get_column(2, 0).is_none());
}

#[test]
fn remove_column_hands_it_back() {
    let mut m = ChunkManager::new();
    m.single_chunk();
    let col = m.remove_chunk_column(&(0, 0));
    assert!(col.is_some());
    assert!(m.get_column(0, 0).is_none());
    assert!(m.remove_chunk_column(&(0, 0)).is_none());
}

#[test]
fn update_block_refreshes_one_cell() {
    let mut m = ChunkManager::new();
    m.single_chunk();
    // stale mesh: face bits start false everywhere
    assert!(!m.get_chunk(0, 0, 0).unwrap().get_active_face(0, 0, 0, 1));
    m.update_block(0, 0, 0, 0, 0, 0);
    let c = m.get_chunk(0, 0, 0).unwrap();
    assert!(c.get_active_face(0, 0, 0, 1)); // -x neighbour unloaded
    assert!(!c.get_active_face(0, 0, 0, 0)); // +x neighbour solid
    assert_eq!(c.get_ao(0, 0, 0), 7);
    // an untouched cell keeps its stale bits
    assert!(!c.get_active_face(5, 5, 5, 1));
}
