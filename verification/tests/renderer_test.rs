use voxel_core::graphics::voxel_renderer::{
    cdiv, get_chunk, is_blocked, is_chunk, light, local, local_neg, setup_uv, vertex, voxel,
    Vertex, VoxelRenderer,
};
use voxel_core::voxels::{Block, BlockRegistry, Chunk};

fn registry() -> BlockRegistry {
    let mut registry = BlockRegistry::new();
    let mut air = Block::new(0, 0);
    air.draw_group = 1;
    air.light_passing = true;
    registry.blocks[0] = Some(air);
    registry.blocks[1] = Some(Block::new(1, 2));
    let mut grass = Block::new(2, 4);
    grass.texture_faces[2] = 2;
    grass.texture_faces[3] = 1;
    registry.blocks[2] = Some(grass);
    let mut glass = Block::new(4, 5);
    glass.draw_group = 2;
    glass.light_passing = true;
    registry.blocks[4] = Some(glass);
    registry.blocks[5] = Some(Block::new(5, 255));
    registry
}

fn air_chunk(x: i32, y: i32, z: i32) -> Chunk {
    let mut chunk = Chunk::new(x, y, z, &vec![false; 4096]);
    chunk.load(&vec![0u8; 4096], 0);
    chunk
}

fn index(x: usize, y: usize, z: usize) -> usize {
    (y * 16 + z) * 16 + x
}

fn lone(centre: Chunk) -> Vec<Option<Chunk>> {
    let mut hood: Vec<Option<Chunk>> = vec![None; 27];
    hood[13] = Some(centre);
    hood
}

fn full(centre: Chunk) -> Vec<Option<Chunk>> {
    let mut hood: Vec<Option<Chunk>> = Vec::new();
    let mut i = 0;
    while i < 27 {
        hood.push(Some(air_chunk(i % 3 - 1, i / 9 - 1, (i / 3) % 3 - 1)));
        i += 1;
    }
    hood[13] = Some(centre);
    hood
}

#[test]
fn floor_division() {
    assert_eq!(cdiv(0, 16), 0);
    assert_eq!(cdiv(15, 16), 0);
    assert_eq!(cdiv(16, 16), 1);
    assert_eq!(cdiv(-1, 16), -1);
    assert_eq!(cdiv(-16, 16), -1);
    assert_eq!(cdiv(-17, 16), -2);
    assert_eq!(cdiv(7, 3), 2);
    assert_eq!(cdiv(-7, 3), -3);
    assert_eq!(cdiv(i32::MIN, 16), -134217728);
    assert_eq!(cdiv(i32::MIN, 1), i32::MIN);
    assert_eq!(cdiv(i32::MAX, 1), i32::MAX);
}

#[test]
fn local_coordinates_wrap_into_the_chunk() {
    assert_eq!(local_neg(-1, 16), 15);
    assert_eq!(local_neg(-16, 16), 0);
    assert_eq!(local_neg(5, 16), 5);
    assert_eq!(local(-1, 16), 15);
    assert_eq!(local(0, 16), 0);
    assert_eq!(local(15, 16), 15);
    assert_eq!(local(16, 16), 0);
    assert_eq!(local(31, 16), 15);
    assert_eq!(local(-16, 16), 0);
}

#[test]
fn neighbourhood_lookup() {
    let mut centre = air_chunk(0, 0, 0);
    centre.voxels[index(1, 2, 3)].id = 7;
    centre.lightmap.set(1, 2, 3, 2, 9);
    let mut hood = lone(centre);
    let mut east = air_chunk(1, 0, 0);
    east.voxels[index(0, 5, 5)].id = 8;
    east.lightmap.set(0, 5, 5, 3, 4);
    hood[14] = Some(east);
    let mut below = air_chunk(0, -1, 0);
    below.voxels[index(4, 15, 4)].id = 9;
    hood[4] = Some(below);
    assert!(is_chunk(0, 0, 0, &hood));
    assert!(is_chunk(16, 0, 0, &hood));
    assert!(is_chunk(0, -1, 0, &hood));
    assert!(!is_chunk(-1, 0, 0, &hood));
    assert!(!is_chunk(0, 16, 0, &hood));
    assert!(!is_chunk(0, 0, 16, &hood));
    assert!(!is_chunk(0, 0, -1, &hood));
    assert_eq!(get_chunk(16, 0, 0, &hood).map(|c| c.x), Some(1));
    assert_eq!(get_chunk(5, -3, 5, &hood).map(|c| c.y), Some(-1));
    assert!(get_chunk(0, -17, 0, &hood).is_none());
    assert!(get_chunk(0, 32, 0, &hood).is_none());
    assert!(get_chunk(0, 0, 0, &[]).is_none());
    assert_eq!(voxel(1, 2, 3, &hood).map(|v| v.id), Some(7));
    assert_eq!(voxel(16, 5, 5, &hood).map(|v| v.id), Some(8));
    assert_eq!(voxel(4, -1, 4, &hood).map(|v| v.id), Some(9));
    assert_eq!(voxel(0, 0, 0, &hood).map(|v| v.id), Some(0));
    assert!(voxel(-1, 0, 0, &hood).is_none());
    assert_eq!(light(1, 2, 3, 2, &hood), 9);
    assert_eq!(light(1, 2, 3, 3, &hood), 0);
    assert_eq!(light(16, 5, 5, 3, &hood), 4);
    assert_eq!(light(-1, 5, 5, 3, &hood), 0);
}

#[test]
fn occlusion_by_draw_group() {
    let registry = registry();
    let mut centre = air_chunk(0, 0, 0);
    centre.voxels[index(1, 1, 1)].id = 1;
    centre.voxels[index(2, 1, 1)].id = 4;
    centre.voxels[index(3, 1, 1)].id = 77;
    let hood = lone(centre);
    // a missing chunk hides the face
    assert!(is_blocked(-1, 0, 0, &registry, 0, &hood));
    assert!(is_blocked(0, 16, 0, &registry, 2, &hood));
    // air hides nothing
    assert!(!is_blocked(0, 0, 0, &registry, 0, &hood));
    assert!(!is_blocked(0, 0, 0, &registry, 1, &hood));
    // stone hides faces of its own group only
    assert!(is_blocked(1, 1, 1, &registry, 0, &hood));
    assert!(!is_blocked(1, 1, 1, &registry, 2, &hood));
    // glass hides glass only
    assert!(is_blocked(2, 1, 1, &registry, 2, &hood));
    assert!(!is_blocked(2, 1, 1, &registry, 0, &hood));
    // a block without a definition hides nothing
    assert!(!is_blocked(3, 1, 1, &registry, 0, &hood));
}

#[test]
fn texture_rectangle_of_an_atlas_cell() {
    assert_eq!(setup_uv(0), (0, 15, 1, 16));
    assert_eq!(setup_uv(2), (2, 15, 3, 16));
    assert_eq!(setup_uv(15), (15, 15, 16, 16));
    assert_eq!(setup_uv(16), (0, 14, 1, 15));
    assert_eq!(setup_uv(37), (5, 13, 6, 14));
    assert_eq!(setup_uv(255), (15, 0, 16, 1));
}

#[test]
fn vertex_appends_one_vertex() {
    let mut buffer: Vec<Vertex> = Vec::new();
    vertex(&mut buffer, 1, 2, 3, 4, 5, 6, 7, 8, 9);
    vertex(&mut buffer, -1, -2, -3, 0, 0, 0, 0, 0, 0);
    assert_eq!(buffer.len(), 2);
    assert_eq!(buffer[0], Vertex { x: 1, y: 2, z: 3, u: 4, v: 5, r: 6, g: 7, b: 8, s: 9 });
    assert_eq!(buffer[1].x, -1);
}

#[test]
fn empty_chunk_has_no_mesh() {
    let mut renderer = VoxelRenderer::new(16);
    assert_eq!(renderer.vertices().len(), 0);
    let centre = air_chunk(0, 0, 0);
    let hood = full(air_chunk(0, 0, 0));
    assert_eq!(renderer.render(&centre, &hood, &registry()), 0);
    assert_eq!(renderer.vertices().len(), 0);
}

#[test]
fn single_voxel_has_six_faces() {
    let mut centre = air_chunk(0, 0, 0);
    centre.voxels[index(8, 8, 8)].id = 1;
    let hood = lone(centre.clone());
    let mut renderer = VoxelRenderer::new(16);
    let count = renderer.render(&centre, &hood, &registry());
    assert_eq!(count, 36);
    let mesh = renderer.vertices();
    assert_eq!(mesh.len(), 36);
    // top face: every vertex lies on the plane y = 8.5
    for v in mesh[0..6].iter() {
        assert_eq!(v.y, 17);
    }
    assert_eq!(mesh[0], Vertex { x: 15, y: 17, z: 15, u: 3, v: 15, r: 0, g: 0, b: 0, s: 0 });
    assert_eq!(mesh[1], Vertex { x: 15, y: 17, z: 17, u: 3, v: 16, r: 0, g: 0, b: 0, s: 0 });
    assert_eq!(mesh[2], Vertex { x: 17, y: 17, z: 17, u: 2, v: 16, r: 0, g: 0, b: 0, s: 0 });
    assert_eq!(mesh[3], mesh[0]);
    assert_eq!(mesh[4], mesh[2]);
    assert_eq!(mesh[5], Vertex { x: 17, y: 17, z: 15, u: 2, v: 15, r: 0, g: 0, b: 0, s: 0 });
    // bottom face
    for v in mesh[6..12].iter() {
        assert_eq!(v.y, 15);
    }
    assert_eq!((mesh[6].x, mesh[6].z, mesh[6].u, mesh[6].v), (15, 15, 2, 15));
    assert_eq!((mesh[7].x, mesh[7].z, mesh[7].u, mesh[7].v), (17, 17, 3, 16));
    assert_eq!((mesh[8].x, mesh[8].z, mesh[8].u, mesh[8].v), (15, 17, 2, 16));
    assert_eq!(mesh[9], mesh[6]);
    assert_eq!((mesh[10].x, mesh[10].z, mesh[10].u, mesh[10].v), (17, 15, 3, 15));
    assert_eq!(mesh[11], mesh[7]);
    // the faces towards +x, -x, +z, -z
    for v in mesh[12..18].iter() {
        assert_eq!(v.x, 17);
    }
    for v in mesh[18..24].iter() {
        assert_eq!(v.x, 15);
    }
    for v in mesh[24..30].iter() {
        assert_eq!(v.z, 17);
    }
    for v in mesh[30..36].iter() {
        assert_eq!(v.z, 15);
    }
    assert_eq!((mesh[12].y, mesh[12].z, mesh[12].u, mesh[12].v), (15, 15, 3, 15));
    assert_eq!((mesh[17].y, mesh[17].z, mesh[17].u, mesh[17].v), (15, 17, 2, 15));
    assert_eq!((mesh[22].y, mesh[22].z, mesh[22].u, mesh[22].v), (15, 17, 3, 15));
    assert_eq!((mesh[28].x, mesh[28].y, mesh[28].u, mesh[28].v), (17, 15, 3, 15));
    assert_eq!((mesh[35].x, mesh[35].y, mesh[35].u, mesh[35].v), (17, 15, 2, 15));
}

#[test]
fn faces_use_their_own_textures() {
    let mut centre = air_chunk(0, 0, 0);
    centre.voxels[index(8, 8, 8)].id = 2;
    let hood = lone(centre.clone());
    let mut renderer = VoxelRenderer::new(16);
    assert_eq!(renderer.render(&centre, &hood, &registry()), 36);
    let mesh = renderer.vertices();
    // top shows texture 1, bottom texture 2, the sides texture 4
    assert_eq!((mesh[5].u, mesh[5].v), (1, 15));
    assert_eq!((mesh[6].u, mesh[6].v), (2, 15));
    assert_eq!((mesh[17].u, mesh[17].v), (4, 15));
    assert_eq!((mesh[18].u, mesh[18].v), (4, 15));
    assert_eq!((mesh[24].u, mesh[24].v), (4, 15));
    assert_eq!((mesh[35].u, mesh[35].v), (4, 15));
}

#[test]
fn last_atlas_cell() {
    let mut centre = air_chunk(0, 0, 0);
    centre.voxels[index(8, 8, 8)].id = 5;
    let hood = lone(centre.clone());
    let mut renderer = VoxelRenderer::new(16);
    assert_eq!(renderer.render(&centre, &hood, &registry()), 36);
    let mesh = renderer.vertices();
    assert_eq!((mesh[0].u, mesh[0].v), (16, 0));
    assert_eq!((mesh[2].u, mesh[2].v), (15, 1));
}

#[test]
fn faces_at_the_edge_of_the_world_are_hidden() {
    let mut centre = air_chunk(0, 0, 0);
    centre.voxels[index(0, 0, 0)].id = 1;
    let hood = lone(centre.clone());
    let mut renderer = VoxelRenderer::new(16);
    assert_eq!(renderer.render(&centre, &hood, &registry()), 18);
    let mesh = renderer.vertices();
    for v in mesh[0..6].iter() {
        assert_eq!(v.y, 1);
    }
    for v in mesh[6..12].iter() {
        assert_eq!(v.x, 1);
    }
    for v in mesh[12..18].iter() {
        assert_eq!(v.z, 1);
    }
    let hood = full(centre.clone());
    assert_eq!(renderer.render(&centre, &hood, &registry()), 36);
}

#[test]
fn faces_between_blocks_of_one_group_are_hidden() {
    let mut centre = air_chunk(0, 0, 0);
    centre.voxels[index(8, 8, 8)].id = 1;
    centre.voxels[index(9, 8, 8)].id = 2;
    let hood = lone(centre.clone());
    let mut renderer = VoxelRenderer::new(16);
    assert_eq!(renderer.render(&centre, &hood, &registry()), 60);
    // glass beside stone: both faces are drawn
    centre.voxels[index(9, 8, 8)].id = 4;
    let hood = lone(centre.clone());
    assert_eq!(renderer.render(&centre, &hood, &registry()), 72);
    // glass beside glass
    centre.voxels[index(8, 8, 8)].id = 4;
    let hood = lone(centre.clone());
    assert_eq!(renderer.render(&centre, &hood, &registry()), 60);
    // a block without a definition is not drawn and hides nothing
    centre.voxels[index(8, 8, 8)].id = 77;
    let hood = lone(centre.clone());
    assert_eq!(renderer.render(&centre, &hood, &registry()), 36);
}

#[test]
fn occlusion_reads_the_neighbourhood() {
    let mut centre = air_chunk(0, 0, 0);
    centre.voxels[index(15, 8, 8)].id = 1;
    let mut hood = full(centre.clone());
    let mut east = air_chunk(1, 0, 0);
    east.voxels[index(0, 8, 8)].id = 1;
    hood[14] = Some(east);
    let mut renderer = VoxelRenderer::new(16);
    assert_eq!(renderer.render(&centre, &hood, &registry()), 30);
}

#[test]
fn full_light_gives_full_brightness_scaled_by_face() {
    let mut centre = air_chunk(0, 0, 0);
    centre.voxels[index(8, 8, 8)].id = 1;
    let mut i = 0;
    while i < 4096 {
        centre.lightmap.map[i] = 0xF000;
        i += 1;
    }
    let hood = lone(centre.clone());
    let mut renderer = VoxelRenderer::new(16);
    assert_eq!(renderer.render(&centre, &hood, &registry()), 36);
    let mesh = renderer.vertices();
    let expected = [7500, 5625, 7125, 6375, 6750, 6000];
    let mut face = 0;
    while face < 6 {
        for v in mesh[face * 6..face * 6 + 6].iter() {
            assert_eq!(v.s, expected[face]);
            assert_eq!((v.r, v.g, v.b), (0, 0, 0));
        }
        face += 1;
    }
}

#[test]
fn vertex_light_averages_the_voxels_around_the_corner() {
    let mut centre = air_chunk(0, 0, 0);
    centre.voxels[index(8, 8, 8)].id = 1;
    // above the block: the voxel in front of the top face and three around
    // the corner towards -x, -z
    centre.lightmap.set(8, 9, 8, 0, 10);
    centre.lightmap.set(7, 9, 8, 0, 4);
    centre.lightmap.set(8, 9, 7, 0, 2);
    centre.lightmap.set(7, 9, 7, 0, 1);
    centre.lightmap.set(9, 9, 9, 1, 15);
    let hood = lone(centre.clone());
    let mut renderer = VoxelRenderer::new(16);
    assert_eq!(renderer.render(&centre, &hood, &registry()), 36);
    let mesh = renderer.vertices();
    // corner (-x, -z): 2 * 10 + 4 + 2 + 1 = 27 of 75, at 100 percent
    assert_eq!(mesh[0].r, 2700);
    // corner (-x, +z): 2 * 10 + 4 = 24
    assert_eq!(mesh[1].r, 2400);
    // corner (+x, +z): 2 * 10 = 20, and green 15 from the diagonal
    assert_eq!(mesh[2].r, 2000);
    assert_eq!(mesh[2].g, 1500);
    // corner (+x, -z): 2 * 10 + 2 = 22
    assert_eq!(mesh[5].r, 2200);
    assert_eq!(mesh[0].g, 0);
    // the face towards -x sees (7, 9, 8) beside its front voxel: 4 at 85 percent
    assert_eq!(mesh[19].r, 4 * 85);
    assert_eq!(mesh[18].r, 0);
}

#[test]
fn render_replaces_the_previous_mesh() {
    let mut centre = air_chunk(0, 0, 0);
    centre.voxels[index(8, 8, 8)].id = 1;
    centre.voxels[index(3, 3, 3)].id = 1;
    let hood = lone(centre.clone());
    let mut renderer = VoxelRenderer::new(0);
    assert_eq!(renderer.render(&centre, &hood, &registry()), 72);
    // voxels come in (y, z, x) row-major order
    assert_eq!(renderer.vertices()[0].y, 7);
    assert_eq!(renderer.vertices()[36].y, 17);
    centre.voxels[index(3, 3, 3)].id = 0;
    let hood = lone(centre.clone());
    assert_eq!(renderer.render(&centre, &hood, &registry()), 36);
    assert_eq!(renderer.vertices().len(), 36);
}
