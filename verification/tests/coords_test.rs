use voxel_core::voxels::chunks::Chunks;
use voxel_core::voxels::coords::{chunk_coord, local_coord};

fn flat_world(w: i32, h: i32, d: i32) -> Chunks {
    let solid = vec![false; (w * h * d) as usize * 4096];
    Chunks::new(w, h, d, &solid)
}

#[test]
fn floor_division_of_negative_coordinates() {
    assert_eq!(chunk_coord(-1), -1);
    assert_eq!(local_coord(-1), 15);
    assert_eq!(chunk_coord(-16), -1);
    assert_eq!(local_coord(-16), 0);
    assert_eq!(chunk_coord(-17), -2);
    assert_eq!(local_coord(-17), 15);
    assert_eq!(chunk_coord(0), 0);
    assert_eq!(chunk_coord(15), 0);
    assert_eq!(chunk_coord(16), 1);
    assert_eq!(chunk_coord(31), 1);
    assert_eq!(local_coord(31), 15);
    assert_eq!(chunk_coord(i32::MIN), -134217728);
    assert_eq!(local_coord(i32::MIN), 0);
    assert_eq!(chunk_coord(i32::MAX), 134217727);
    assert_eq!(local_coord(i32::MAX), 15);
}

#[test]
fn split_and_join_round_trip() {
    let mut v: i32 = -100;
    while v <= 100 {
        let c = chunk_coord(v);
        let l = local_coord(v);
        assert!(0 <= l && l < 16);
        assert_eq!(c * 16 + l, v);
        v += 1;
    }
}

#[test]
fn indices_of_a_voxel() {
    let world = flat_world(2, 3, 4);
    // chunk (1, 2, 3) has index (2 * 4 + 3) * 2 + 1 = 23
    let found = world.calculate_indices(16 + 5, 32 + 6, 48 + 7);
    assert_eq!(found, Some((23, (6 * 16 + 7) * 16 + 5, 1, 2, 3, 5, 6, 7)));
    assert_eq!(world.calculate_indices(-1, 0, 0), None);
    assert_eq!(world.calculate_indices(32, 0, 0), None);
    assert_eq!(world.calculate_indices(0, 48, 0), None);
    assert_eq!(world.calculate_indices(0, 0, 64), None);
    assert_eq!(world.calculate_indices(0, -16, 0), None);
}

#[test]
fn chunk_index_in_storage_order() {
    let world = flat_world(2, 3, 4);
    assert_eq!(world.get_chunk_index(0, 0, 0), Some(0));
    assert_eq!(world.get_chunk_index(1, 0, 0), Some(1));
    assert_eq!(world.get_chunk_index(0, 0, 1), Some(2));
    assert_eq!(world.get_chunk_index(0, 1, 0), Some(8));
    assert_eq!(world.get_chunk_index(1, 2, 3), Some(23));
    assert_eq!(world.get_chunk_index(2, 0, 0), None);
    assert_eq!(world.get_chunk_index(0, 3, 0), None);
    assert_eq!(world.get_chunk_index(0, 0, 4), None);
    assert_eq!(world.get_chunk_index(-1, 0, 0), None);
    let mut i = 0;
    while i < world.chunks.len() {
        let c = &world.chunks[i];
        assert_eq!(world.get_chunk_index(c.x, c.y, c.z), Some(i as i32));
        i += 1;
    }
}
