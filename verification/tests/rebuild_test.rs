use voxel_core::graphics::voxel_renderer::VoxelRenderer;
use voxel_core::voxels::chunks::Chunks;
use voxel_core::voxels::{Block, BlockRegistry, Chunk};

fn registry() -> BlockRegistry {
    let mut registry = BlockRegistry::new();
    let mut air = Block::new(0, 0);
    air.draw_group = 1;
    air.light_passing = true;
    registry.blocks[0] = Some(air);
    registry.blocks[1] = Some(Block::new(1, 2));
    registry
}

fn empty_world(w: i32, h: i32, d: i32) -> Chunks {
    let n = (w * h * d) as usize * 4096;
    let mut world = Chunks::new(w, h, d, &vec![false; n]);
    assert!(world.read(&vec![0u8; n]).is_ok());
    for chunk in world.chunks.iter_mut() {
        chunk.modified = false;
    }
    world
}

#[test]
fn duplicate_copies_a_chunk() {
    let mut solid = vec![false; 4096];
    solid[4000] = true;
    let mut chunk = Chunk::new(1, 2, 3, &solid);
    chunk.lightmap.set(1, 1, 1, 3, 9);
    let copy = chunk.duplicate();
    assert_eq!((copy.x, copy.y, copy.z, copy.modified), (1, 2, 3, true));
    assert_eq!(copy.lightmap.map, chunk.lightmap.map);
    let mut i = 0;
    while i < 4096 {
        assert_eq!(copy.voxels[i].id, chunk.voxels[i].id);
        i += 1;
    }
    chunk.lightmap.set(1, 1, 1, 3, 0);
    assert_eq!(copy.lightmap.get(1, 1, 1, 3), 9);
}

#[test]
fn neighbourhood_of_a_corner_chunk() {
    let mut world = empty_world(2, 2, 2);
    world.set(17, 1, 1, 5);
    let hood = world.neighborhood(0);
    assert_eq!(hood.len(), 27);
    let present: Vec<usize> = (0..27).filter(|k| hood[*k].is_some()).collect();
    // the chunk itself at 13, +x at 14, +z at 16 and 17, +y at 22, 23, 25, 26
    assert_eq!(present, vec![13, 14, 16, 17, 22, 23, 25, 26]);
    let east = hood[14].as_ref().unwrap();
    assert_eq!((east.x, east.y, east.z), (1, 0, 0));
    assert_eq!(east.voxels[(1 * 16 + 1) * 16 + 1].id, 5);
    let far = hood[26].as_ref().unwrap();
    assert_eq!((far.x, far.y, far.z), (1, 1, 1));
}

#[test]
fn neighbourhood_of_an_inner_chunk() {
    let world = empty_world(3, 3, 3);
    let hood = world.neighborhood(13);
    let mut k = 0;
    while k < 27 {
        let c = hood[k].as_ref().unwrap();
        assert_eq!(
            (c.x, c.y, c.z),
            (k as i32 % 3, k as i32 / 9, (k as i32 / 3) % 3)
        );
        k += 1;
    }
}

#[test]
fn rebuild_takes_the_mark_off() {
    let registry = registry();
    let mut world = empty_world(2, 1, 1);
    let mut renderer = VoxelRenderer::new(64);
    assert_eq!(renderer.rebuild(0, &mut world, &registry), None);
    assert_eq!(renderer.rebuild(1, &mut world, &registry), None);
    world.set(15, 5, 5, 1);
    assert!(world.chunks[0].modified);
    assert!(world.chunks[1].modified);
    assert_eq!(renderer.rebuild(0, &mut world, &registry), Some(36));
    assert_eq!(renderer.vertices().len(), 36);
    assert!(!world.chunks[0].modified);
    assert!(world.chunks[1].modified);
    assert_eq!(renderer.rebuild(0, &mut world, &registry), None);
    assert_eq!(renderer.vertices().len(), 36);
    assert_eq!(renderer.rebuild(1, &mut world, &registry), Some(0));
    assert!(!world.chunks[1].modified);
    // the neighbour hides the face that touches it
    world.set(16, 5, 5, 1);
    assert_eq!(renderer.rebuild(0, &mut world, &registry), Some(30));
    assert_eq!(renderer.rebuild(1, &mut world, &registry), Some(30));
}
