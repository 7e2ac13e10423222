use voxel_core::voxels::chunks::{Chunks, LoadError};
use voxel_core::voxels::{Block, BlockRegistry, Chunk};

fn flat_world(w: i32, h: i32, d: i32) -> Chunks {
    let solid = vec![false; (w * h * d) as usize * 4096];
    Chunks::new(w, h, d, &solid)
}

fn empty_world(w: i32, h: i32, d: i32) -> Chunks {
    let mut world = flat_world(w, h, d);
    let zeros = vec![0u8; (w * h * d) as usize * 4096];
    assert_eq!(world.read(&zeros), Ok(()));
    for chunk in world.chunks.iter_mut() {
        chunk.modified = false;
    }
    world
}

#[test]
fn generated_chunk_follows_the_terrain_rule() {
    let mut solid = vec![false; 4096];
    solid[(5 * 16 + 6) * 16 + 7] = true;
    solid[(1 * 16 + 1) * 16 + 1] = true;
    let chunk = Chunk::new(3, 0, -2, &solid);
    assert_eq!((chunk.x, chunk.y, chunk.z), (3, 0, -2));
    assert!(chunk.modified);
    assert_eq!(chunk.voxels[0].id, 2);
    assert_eq!(chunk.voxels[(2 * 16 + 15) * 16 + 15].id, 2);
    assert_eq!(chunk.voxels[(3 * 16) * 16].id, 0);
    assert_eq!(chunk.voxels[(5 * 16 + 6) * 16 + 7].id, 1);
    assert_eq!(chunk.voxels[(1 * 16 + 1) * 16 + 1].id, 2);
    assert!(chunk.lightmap.map.iter().all(|w| *w == 0));
    let above = Chunk::new(0, 1, 0, &solid);
    assert_eq!(above.voxels[0].id, 0);
    assert_eq!(above.voxels[(1 * 16 + 1) * 16 + 1].id, 1);
    let below = Chunk::new(0, -1, 0, &vec![false; 4096]);
    assert!(below.voxels.iter().all(|v| v.id == 2));
}

#[test]
fn generated_world_has_its_extent_and_order() {
    let mut solid = vec![false; 2 * 2 * 3 * 4096];
    // chunk (1, 1, 2) is number (1 * 3 + 2) * 2 + 1 = 11; voxel (4, 5, 6) inside it
    solid[11 * 4096 + (5 * 16 + 6) * 16 + 4] = true;
    let world = Chunks::new(2, 2, 3, &solid);
    assert_eq!((world.w, world.h, world.d), (2, 2, 3));
    assert_eq!(world.volume, 12);
    assert_eq!(world.chunks.len(), 12);
    assert_eq!((world.chunks[11].x, world.chunks[11].y, world.chunks[11].z), (1, 1, 2));
    assert_eq!((world.chunks[1].x, world.chunks[1].y, world.chunks[1].z), (1, 0, 0));
    assert_eq!((world.chunks[2].x, world.chunks[2].y, world.chunks[2].z), (0, 0, 1));
    assert_eq!((world.chunks[6].x, world.chunks[6].y, world.chunks[6].z), (0, 1, 0));
    assert_eq!(world.get_voxel(16 + 4, 16 + 5, 32 + 6).map(|v| v.id), Some(1));
    assert_eq!(world.get_voxel(16 + 4, 16 + 5, 32 + 7).map(|v| v.id), Some(0));
    assert_eq!(world.get_voxel(0, 2, 0).map(|v| v.id), Some(2));
    assert_eq!(world.get_voxel(0, 3, 0).map(|v| v.id), Some(0));
    assert!(world.chunks.iter().all(|c| c.modified));
}

#[test]
fn voxels_outside_the_world_are_absent() {
    let world = flat_world(1, 1, 1);
    assert!(world.get_voxel(-1, 0, 0).is_none());
    assert!(world.get_voxel(0, -1, 0).is_none());
    assert!(world.get_voxel(0, 0, -1).is_none());
    assert!(world.get_voxel(16, 0, 0).is_none());
    assert!(world.get_voxel(0, 16, 0).is_none());
    assert!(world.get_voxel(0, 0, 16).is_none());
    assert!(world.get_voxel(15, 15, 15).is_some());
    assert_eq!(world.get_light(-1, 0, 0, 3), 0);
    assert_eq!(world.get_light(0, 99, 0, 0), 0);
    assert!(world._get_chunk_by_voxel(16, 0, 0).is_none());
    assert!(world._get_chunk_by_voxel(15, 0, 0).is_some());
    assert!(world._get_chunk(1, 0, 0).is_none());
    assert!(world._get_chunk(0, 0, 0).is_some());
}

#[test]
fn set_writes_the_voxel_and_marks_its_chunk() {
    let mut world = empty_world(3, 3, 3);
    world.set(16 + 5, 16 + 5, 16 + 5, 4);
    assert_eq!(world.get_voxel(21, 21, 21).map(|v| v.id), Some(4));
    let marked: Vec<usize> = (0..27).filter(|i| world.chunks[*i].modified).collect();
    assert_eq!(marked, vec![13]);
}

#[test]
fn set_on_a_chunk_face_marks_the_neighbour() {
    let mut world = empty_world(3, 3, 3);
    world.set(16, 16 + 5, 16 + 5, 1);
    let marked: Vec<usize> = (0..27).filter(|i| world.chunks[*i].modified).collect();
    assert_eq!(marked, vec![12, 13]);

    let mut world = empty_world(3, 3, 3);
    world.set(16 + 15, 16 + 15, 16 + 15, 1);
    let marked: Vec<usize> = (0..27).filter(|i| world.chunks[*i].modified).collect();
    // +x is 14, +z is 16, +y is 22
    assert_eq!(marked, vec![13, 14, 16, 22]);

    let mut world = empty_world(3, 3, 3);
    world.set(16, 16, 16, 1);
    let marked: Vec<usize> = (0..27).filter(|i| world.chunks[*i].modified).collect();
    // -y is 4, -z is 10, -x is 12
    assert_eq!(marked, vec![4, 10, 12, 13]);
}

#[test]
fn set_at_the_edge_of_the_world_marks_what_exists() {
    let mut world = empty_world(1, 1, 1);
    world.set(0, 0, 0, 1);
    assert!(world.chunks[0].modified);
    assert_eq!(world.get_voxel(0, 0, 0).map(|v| v.id), Some(1));
}

#[test]
fn set_outside_the_world_does_nothing() {
    let mut world = empty_world(1, 1, 1);
    world.set(16, 0, 0, 1);
    world.set(0, -1, 0, 1);
    assert!(!world.chunks[0].modified);
    assert!(world.chunks[0].voxels.iter().all(|v| v.id == 0));
}

#[test]
fn set_reduces_the_identifier_to_a_byte() {
    let mut world = empty_world(1, 1, 1);
    world.set(1, 1, 1, 256 + 5);
    assert_eq!(world.get_voxel(1, 1, 1).map(|v| v.id), Some(5));
    world.set(1, 1, 1, -1);
    assert_eq!(world.get_voxel(1, 1, 1).map(|v| v.id), Some(255));
    world.set(1, 1, 1, 255);
    assert_eq!(world.get_voxel(1, 1, 1).map(|v| v.id), Some(255));
}

#[test]
fn mutable_voxel_access_writes_through() {
    let mut world = empty_world(2, 1, 1);
    if let Some(v) = world._get_mut_voxel(17, 2, 3) {
        v.id = 9;
    }
    assert_eq!(world.get_voxel(17, 2, 3).map(|v| v.id), Some(9));
    assert!(!world.chunks[1].modified);
    assert!(world._get_mut_voxel(32, 0, 0).is_none());
}

#[test]
fn mutable_chunk_access_reaches_the_right_chunk() {
    let mut world = empty_world(2, 2, 2);
    if let Some(c) = world.get_mut_chunk(1, 0, 1) {
        assert_eq!((c.x, c.y, c.z), (1, 0, 1));
        c.modified = true;
    }
    assert!(world.chunks[3].modified);
    if let Some(c) = world.get_mut_chunk_by_voxel(0, 31, 16) {
        assert_eq!((c.x, c.y, c.z), (0, 1, 1));
        c.lightmap.set(0, 15, 0, 2, 7);
    }
    assert_eq!(world.get_light(0, 31, 16, 2), 7);
    assert!(world.get_mut_chunk(2, 0, 0).is_none());
    assert!(world.get_mut_chunk_by_voxel(0, 32, 0).is_none());
    world.mark_modified(0, 1, 0);
    assert!(world.chunks[4].modified);
    world.mark_modified(5, 5, 5);
}

#[test]
fn put_light_stores_and_marks() {
    let mut world = empty_world(2, 1, 1);
    world.put_light(20, 3, 4, 1, 12);
    assert_eq!(world.get_light(20, 3, 4, 1), 12);
    assert_eq!(world.get_light(20, 3, 4, 0), 0);
    assert_eq!(world.get_light(19, 3, 4, 1), 0);
    assert!(world.chunks[1].modified);
    assert!(!world.chunks[0].modified);
    world.put_light(40, 0, 0, 1, 12);
    assert!(!world.chunks[0].modified);
}

#[test]
fn write_lists_the_chunks_in_storage_order() {
    let mut world = empty_world(2, 1, 1);
    world.set(0, 0, 0, 7);
    world.set(1, 0, 0, 8);
    world.set(0, 0, 1, 9);
    world.set(0, 1, 0, 10);
    world.set(16, 0, 0, 11);
    world.set(31, 15, 15, 12);
    let mut bytes = vec![0xAAu8; 2 * 4096];
    world.write(&mut bytes);
    assert_eq!(bytes[0], 7);
    assert_eq!(bytes[1], 8);
    assert_eq!(bytes[16], 9);
    assert_eq!(bytes[256], 10);
    assert_eq!(bytes[4096], 11);
    assert_eq!(bytes[8191], 12);
    assert_eq!(bytes.iter().filter(|b| **b != 0).count(), 6);
}

#[test]
fn saved_world_loads_byte_for_byte() {
    let mut solid = vec![false; 2 * 2 * 2 * 4096];
    let mut i = 0;
    while i < solid.len() {
        solid[i] = (i * 7 + i / 13) % 5 == 0;
        i += 1;
    }
    let mut saved = Chunks::new(2, 2, 2, &solid);
    saved.set(3, 20, 30, 200);
    saved.set(31, 31, 31, 17);
    let mut bytes = vec![0u8; 8 * 4096];
    saved.write(&mut bytes);

    let mut fresh = flat_world(2, 2, 2);
    for chunk in fresh.chunks.iter_mut() {
        chunk.modified = false;
    }
    fresh.put_light(1, 1, 1, 3, 9);
    fresh.chunks[0].modified = false;
    assert_eq!(fresh.read(&bytes), Ok(()));
    let mut again = vec![0u8; 8 * 4096];
    fresh.write(&mut again);
    assert_eq!(bytes, again);
    let mut c = 0;
    while c < 8 {
        let mut v = 0;
        while v < 4096 {
            assert_eq!(fresh.chunks[c].voxels[v].id, saved.chunks[c].voxels[v].id);
            v += 1;
        }
        assert!(fresh.chunks[c].modified);
        c += 1;
    }
    assert_eq!(fresh.get_voxel(3, 20, 30).map(|v| v.id), Some(200));
    assert_eq!(fresh.get_voxel(31, 31, 31).map(|v| v.id), Some(17));
    // light is not part of the saved state and stays as it was
    assert_eq!(fresh.get_light(1, 1, 1, 3), 9);
}

#[test]
fn buffer_of_wrong_length_is_rejected() {
    let mut world = empty_world(2, 1, 1);
    world.set(5, 5, 5, 3);
    world.chunks[0].modified = false;
    let short = vec![1u8; 2 * 4096 - 1];
    assert_eq!(world.read(&short), Err(LoadError::WrongLength));
    let long = vec![1u8; 2 * 4096 + 1];
    assert_eq!(world.read(&long), Err(LoadError::WrongLength));
    assert_eq!(world.read(&[]), Err(LoadError::WrongLength));
    assert_eq!(world.get_voxel(5, 5, 5).map(|v| v.id), Some(3));
    assert_eq!(world.get_voxel(0, 0, 0).map(|v| v.id), Some(0));
    assert!(!world.chunks[0].modified);
    assert!(!world.chunks[1].modified);
    let exact = vec![1u8; 2 * 4096];
    assert_eq!(world.read(&exact), Ok(()));
    assert_eq!(world.get_voxel(5, 5, 5).map(|v| v.id), Some(1));
}

#[test]
fn world_without_chunks() {
    let mut world = Chunks::new(0, 4, 4, &[]);
    assert_eq!(world.chunks.len(), 0);
    assert!(world.get_voxel(0, 0, 0).is_none());
    assert_eq!(world.read(&[]), Ok(()));
    assert_eq!(world.read(&[1]), Err(LoadError::WrongLength));
    let mut none: Vec<u8> = Vec::new();
    world.write(&mut none);
    world.set(0, 0, 0, 1);
}

#[test]
fn registry_lookup() {
    let mut registry = BlockRegistry::new();
    assert_eq!(registry.blocks.len(), 256);
    assert!(registry.get(0).is_none());
    assert!(registry.get(255).is_none());
    let mut lamp = Block::new(3, 7);
    lamp.emission = [10, 0, 0];
    registry.blocks[3] = Some(lamp);
    let found = registry.get(3).unwrap();
    assert_eq!(found.id, 3);
    assert_eq!(found.texture_faces, [7, 7, 7, 7, 7, 7]);
    assert_eq!(found.emission, [10, 0, 0]);
    assert_eq!(found.draw_group, 0);
    assert!(!found.light_passing);
    assert!(registry.get(4).is_none());
}

#[test]
fn chunk_load_store_and_darken() {
    let mut chunk = Chunk::new(0, 1, 0, &vec![false; 4096]);
    chunk.modified = false;
    let mut source = vec![0u8; 3 * 4096];
    let mut i = 0;
    while i < source.len() {
        source[i] = (i % 251) as u8;
        i += 1;
    }
    chunk.load(&source, 4096);
    assert!(chunk.modified);
    assert_eq!(chunk.voxels[0].id, (4096 % 251) as u8);
    assert_eq!(chunk.voxels[4095].id, (8191 % 251) as u8);
    let mut dest = vec![0xEEu8; 2 * 4096 + 2];
    chunk.store(&mut dest, 1);
    assert_eq!(dest[0], 0xEE);
    assert_eq!(dest[1], (4096 % 251) as u8);
    assert_eq!(dest[4096], (8191 % 251) as u8);
    assert_eq!(dest[4097], 0xEE);
    chunk.lightmap.set(1, 1, 1, 2, 5);
    chunk.modified = false;
    chunk.darken();
    assert!(chunk.modified);
    assert!(chunk.lightmap.map.iter().all(|w| *w == 0));
    assert_eq!(chunk.voxels[0].id, (4096 % 251) as u8);
}
