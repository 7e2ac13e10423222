use voxel_core::lighting::Lighting;
use voxel_core::voxels::chunks::Chunks;
use voxel_core::voxels::{Block, BlockRegistry};

fn registry() -> BlockRegistry {
    let mut registry = BlockRegistry::new();
    let mut air = Block::new(0, 0);
    air.draw_group = 1;
    air.light_passing = true;
    registry.blocks[0] = Some(air);
    registry.blocks[1] = Some(Block::new(1, 2));
    let mut grass = Block::new(2, 4);
    grass.texture_faces[2] = 2;
    grass.texture_faces[3] = 1;
    registry.blocks[2] = Some(grass);
    let mut lamp = Block::new(3, 3);
    lamp.emission = [10, 0, 0];
    registry.blocks[3] = Some(lamp);
    let mut glass = Block::new(4, 5);
    glass.draw_group = 2;
    glass.light_passing = true;
    registry.blocks[4] = Some(glass);
    registry.blocks[5] = Some(Block::new(5, 6));
    let mut beacon = Block::new(6, 7);
    beacon.emission = [3, 15, 8];
    registry.blocks[6] = Some(beacon);
    registry
}

fn empty_world(w: i32, h: i32, d: i32) -> Chunks {
    let n = (w * h * d) as usize * 4096;
    let mut world = Chunks::new(w, h, d, &vec![false; n]);
    assert!(world.read(&vec![0u8; n]).is_ok());
    for chunk in world.chunks.iter_mut() {
        chunk.modified = false;
    }
    world
}

fn levels(world: &Chunks) -> Vec<Vec<u16>> {
    world.chunks.iter().map(|c| c.lightmap.map.clone()).collect()
}

fn passes(registry: &BlockRegistry, id: u8) -> bool {
    id == 0 || registry.get(id).map(|b| b.light_passing).unwrap_or(false)
}

/// No voxel is more than one level brighter than a light-passing neighbour.
fn assert_attenuated(world: &Chunks, registry: &BlockRegistry) {
    let (w, h, d) = (world.w as i32 * 16, world.h as i32 * 16, world.d as i32 * 16);
    let steps = [(0, 0, 1), (0, 0, -1), (0, 1, 0), (0, -1, 0), (1, 0, 0), (-1, 0, 0)];
    let mut y = 0;
    while y < h {
        let mut z = 0;
        while z < d {
            let mut x = 0;
            while x < w {
                for (dx, dy, dz) in steps.iter() {
                    let (nx, ny, nz) = (x + dx, y + dy, z + dz);
                    if let Some(v) = world.get_voxel(nx, ny, nz) {
                        if passes(registry, v.id) {
                            let mut c = 0;
                            while c < 4 {
                                let here = world.get_light(x, y, z, c) as i32;
                                let there = world.get_light(nx, ny, nz, c) as i32;
                                assert!(
                                    there + 1 >= here,
                                    "channel {} at ({}, {}, {}): {} beside {}",
                                    c,
                                    x,
                                    y,
                                    z,
                                    here,
                                    there
                                );
                                c += 1;
                            }
                        }
                    }
                }
                x += 1;
            }
            z += 1;
        }
        y += 1;
    }
}

#[test]
fn clear_zeroes_every_channel() {
    let mut world = empty_world(2, 1, 2);
    world.put_light(1, 2, 3, 0, 5);
    world.put_light(17, 2, 19, 3, 15);
    world.put_light(31, 15, 31, 2, 1);
    for chunk in world.chunks.iter_mut() {
        chunk.modified = false;
    }
    world.set(4, 4, 4, 9);
    let mut lighting = Lighting::new();
    lighting.clear(&mut world);
    for chunk in world.chunks.iter() {
        assert!(chunk.lightmap.map.iter().all(|w| *w == 0));
        assert!(chunk.modified);
    }
    assert_eq!(world.get_voxel(4, 4, 4).map(|v| v.id), Some(9));
}

#[test]
fn all_air_world_gets_full_sky_light() {
    let mut world = empty_world(2, 2, 2);
    world.put_light(3, 3, 3, 3, 4);
    world.put_light(3, 3, 3, 0, 4);
    let mut lighting = Lighting::new();
    lighting.on_world_loaded(&registry(), &mut world);
    let mut x = 0;
    while x < 32 {
        let mut y = 0;
        while y < 32 {
            let mut z = 0;
            while z < 32 {
                assert_eq!(world.get_light(x, y, z, 3), 15);
                z += 1;
            }
            y += 1;
        }
        x += 1;
    }
    for chunk in world.chunks.iter() {
        assert!(chunk.lightmap.map.iter().all(|w| *w & 0xF000 == 0xF000));
    }
    // the colour channels are not part of the sky pass
    assert_eq!(world.get_light(3, 3, 3, 0), 4);
    assert_eq!(world.get_light(4, 3, 3, 0), 0);
}

#[test]
fn all_air_world_gets_full_sky_light_without_definitions() {
    let mut world = empty_world(1, 1, 1);
    let mut lighting = Lighting::new();
    lighting.on_world_loaded(&BlockRegistry::new(), &mut world);
    assert!(world.chunks[0].lightmap.map.iter().all(|w| *w == 0xF000));
}

#[test]
fn loaded_world_has_sky_above_the_ground_only() {
    let mut world = Chunks::new(1, 1, 1, &vec![false; 4096]);
    let mut lighting = Lighting::new();
    lighting.on_world_loaded(&registry(), &mut world);
    assert_eq!(world.get_light(5, 15, 5, 3), 15);
    assert_eq!(world.get_light(5, 3, 5, 3), 15);
    assert_eq!(world.get_light(5, 2, 5, 3), 0);
    assert_eq!(world.get_light(5, 0, 5, 3), 0);
    assert_attenuated(&world, &registry());
}

#[test]
fn sky_light_flows_under_a_roof() {
    let mut solid = vec![false; 4 * 4096];
    // a stone roof at height 10 over x 4..12, z 4..12 of a 2 x 1 x 2 world
    let mut z = 4;
    while z < 12 {
        let mut x = 4;
        while x < 12 {
            solid[(10 * 16 + z) * 16 + x] = true;
            x += 1;
        }
        z += 1;
    }
    let mut world = Chunks::new(2, 1, 2, &solid);
    assert_eq!(world.get_voxel(8, 10, 8).map(|v| v.id), Some(1));
    let mut lighting = Lighting::new();
    lighting.on_world_loaded(&registry(), &mut world);
    assert_eq!(world.get_light(8, 11, 8, 3), 15);
    assert_eq!(world.get_light(8, 10, 8, 3), 0);
    assert_eq!(world.get_light(3, 9, 8, 3), 15);
    assert_eq!(world.get_light(4, 9, 8, 3), 14);
    assert_eq!(world.get_light(5, 9, 8, 3), 13);
    // four steps from the open column at x = 12
    assert_eq!(world.get_light(8, 9, 8, 3), 11);
    assert_eq!(world.get_light(7, 9, 7, 3), 11);
    assert_eq!(world.get_light(8, 3, 8, 3), 11);
    assert_eq!(world.get_light(11, 9, 11, 3), 14);
    assert_eq!(world.get_light(8, 2, 8, 3), 0);
    assert_attenuated(&world, &registry());
    let (r, g, b) = (world.get_light(8, 9, 8, 0), world.get_light(8, 9, 8, 1), world.get_light(8, 9, 8, 2));
    assert_eq!((r, g, b), (0, 0, 0));
}

#[test]
fn loaded_world_lights_its_emitters() {
    let mut world = empty_world(2, 1, 1);
    world.set(8, 8, 8, 3);
    world.set(24, 8, 8, 6);
    world.set(8, 4, 8, 1);
    let mut lighting = Lighting::new();
    lighting.clear(&mut world);
    lighting.on_world_loaded(&registry(), &mut world);
    assert_eq!(world.get_light(8, 8, 8, 0), 10);
    assert_eq!(world.get_light(8, 8, 8, 1), 0);
    assert_eq!(world.get_light(9, 8, 8, 0), 9);
    assert_eq!(world.get_light(8, 8, 12, 0), 6);
    assert_eq!(world.get_light(24, 8, 8, 0), 3);
    assert_eq!(world.get_light(24, 8, 8, 1), 15);
    assert_eq!(world.get_light(24, 8, 8, 2), 8);
    assert_eq!(world.get_light(25, 8, 8, 0), 2);
    assert_eq!(world.get_light(26, 8, 8, 0), 1);
    assert_eq!(world.get_light(27, 8, 8, 0), 0);
    assert_eq!(world.get_light(20, 8, 8, 1), 11);
    assert_eq!(world.get_light(24, 9, 9, 2), 6);
    // red of the lamp meets red of the beacon: 16 steps apart
    assert_eq!(world.get_light(17, 8, 8, 0), 1);
    assert_eq!(world.get_light(18, 8, 8, 0), 0);
    // the emitters are opaque and under open sky have no sky light
    assert_eq!(world.get_light(8, 8, 8, 3), 0);
    assert_eq!(world.get_light(8, 9, 8, 3), 15);
    assert_eq!(world.get_light(8, 7, 8, 3), 14);
    assert_eq!(world.get_light(8, 4, 8, 3), 0);
    assert_attenuated(&world, &registry());
}

#[test]
fn placing_an_occluder_under_the_sky_casts_a_shadow() {
    let registry = registry();
    let mut world = empty_world(1, 2, 1);
    let mut lighting = Lighting::new();
    lighting.on_world_loaded(&registry, &mut world);
    world.put_light(2, 2, 2, 0, 0);
    let before = levels(&world);
    world.set(8, 20, 8, 1);
    lighting.on_block_set(8, 20, 8, 1, &registry, &mut world);
    assert_eq!(world.get_light(8, 20, 8, 3), 0);
    assert_eq!(world.get_light(8, 21, 8, 3), 15);
    let mut y = 19;
    while y >= 0 {
        assert_eq!(world.get_light(8, y, 8, 3), 14);
        assert_eq!(world.get_light(7, y, 8, 3), 15);
        assert_eq!(world.get_light(8, y, 9, 3), 15);
        y -= 1;
    }
    // no channel of any voxel has risen
    let after = levels(&world);
    let mut c = 0;
    while c < after.len() {
        let mut v = 0;
        while v < 4096 {
            let mut shift = 0;
            while shift < 16 {
                assert!((after[c][v] >> shift) & 0xF <= (before[c][v] >> shift) & 0xF);
                shift += 4;
            }
            v += 1;
        }
        c += 1;
    }
    assert_attenuated(&world, &registry);
}

#[test]
fn shadow_stops_at_the_next_solid_voxel() {
    let registry = registry();
    let mut world = empty_world(1, 1, 1);
    world.set(8, 5, 8, 1);
    let mut lighting = Lighting::new();
    lighting.on_world_loaded(&registry, &mut world);
    assert_eq!(world.get_light(8, 4, 8, 3), 14);
    assert_eq!(world.get_light(8, 6, 8, 3), 15);
    world.set(8, 10, 8, 1);
    lighting.on_block_set(8, 10, 8, 1, &registry, &mut world);
    assert_eq!(world.get_light(8, 10, 8, 3), 0);
    assert_eq!(world.get_light(8, 9, 8, 3), 14);
    assert_eq!(world.get_light(8, 6, 8, 3), 14);
    assert_eq!(world.get_light(8, 5, 8, 3), 0);
    assert_eq!(world.get_light(8, 4, 8, 3), 14);
    assert_attenuated(&world, &registry);
}

#[test]
fn placing_a_lamp_lights_its_surroundings() {
    let registry = registry();
    let mut world = empty_world(2, 2, 2);
    let mut lighting = Lighting::new();
    world.set(16, 16, 16, 3);
    lighting.on_block_set(16, 16, 16, 3, &registry, &mut world);
    assert_eq!(world.get_light(16, 16, 16, 0), 10);
    assert_eq!(world.get_light(17, 16, 16, 0), 9);
    assert_eq!(world.get_light(16, 12, 16, 0), 6);
    assert_eq!(world.get_light(18, 17, 16, 0), 7);
    assert_eq!(world.get_light(16, 16, 25, 0), 1);
    assert_eq!(world.get_light(16, 16, 26, 0), 0);
    assert_eq!(world.get_light(17, 16, 16, 1), 0);
    assert_eq!(world.get_light(17, 16, 16, 2), 0);
    assert_eq!(world.get_light(17, 16, 16, 3), 0);
    assert_attenuated(&world, &registry);
}

#[test]
fn placing_a_block_with_three_colours() {
    let registry = registry();
    let mut world = empty_world(1, 1, 1);
    let mut lighting = Lighting::new();
    world.set(8, 8, 8, 6);
    lighting.on_block_set(8, 8, 8, 6, &registry, &mut world);
    assert_eq!(world.get_light(8, 8, 8, 0), 3);
    assert_eq!(world.get_light(8, 8, 8, 1), 15);
    assert_eq!(world.get_light(8, 8, 8, 2), 8);
    assert_eq!(world.get_light(8, 9, 8, 0), 2);
    assert_eq!(world.get_light(8, 9, 8, 1), 14);
    assert_eq!(world.get_light(8, 9, 8, 2), 7);
}

#[test]
fn removing_a_lamp_darkens_its_surroundings() {
    let registry = registry();
    let mut world = empty_world(2, 2, 2);
    let mut lighting = Lighting::new();
    world.set(16, 16, 16, 3);
    lighting.on_block_set(16, 16, 16, 3, &registry, &mut world);
    world.set(16, 16, 16, 0);
    lighting.on_block_set(16, 16, 16, 0, &registry, &mut world);
    for chunk in world.chunks.iter() {
        assert!(chunk.lightmap.map.iter().all(|w| *w == 0));
    }
}

#[test]
fn removing_a_block_lets_the_light_of_a_lamp_in() {
    let registry = registry();
    let mut world = empty_world(1, 1, 1);
    let mut lighting = Lighting::new();
    world.set(9, 8, 8, 1);
    world.set(8, 8, 8, 3);
    lighting.on_block_set(8, 8, 8, 3, &registry, &mut world);
    assert_eq!(world.get_light(9, 8, 8, 0), 0);
    assert_eq!(world.get_light(10, 8, 8, 0), 6);
    world.set(9, 8, 8, 0);
    lighting.on_block_set(9, 8, 8, 0, &registry, &mut world);
    assert_eq!(world.get_light(9, 8, 8, 0), 9);
    assert_eq!(world.get_light(10, 8, 8, 0), 8);
    assert_eq!(world.get_light(8, 8, 8, 0), 10);
    assert_attenuated(&world, &registry);
}

#[test]
fn removing_a_roof_block_lets_the_sky_in() {
    let registry = registry();
    let mut world = empty_world(1, 1, 1);
    world.set(8, 10, 8, 1);
    let mut lighting = Lighting::new();
    lighting.on_world_loaded(&registry, &mut world);
    assert_eq!(world.get_light(8, 9, 8, 3), 14);
    world.set(8, 10, 8, 0);
    lighting.on_block_set(8, 10, 8, 0, &registry, &mut world);
    let mut y = 0;
    while y < 16 {
        assert_eq!(world.get_light(8, y, 8, 3), 15);
        y += 1;
    }
    assert_attenuated(&world, &registry);
}

#[test]
fn edits_outside_the_world_change_nothing() {
    let registry = registry();
    let mut world = empty_world(1, 1, 1);
    let mut lighting = Lighting::new();
    lighting.on_world_loaded(&registry, &mut world);
    for chunk in world.chunks.iter_mut() {
        chunk.modified = false;
    }
    let before = levels(&world);
    lighting.on_block_set(40, 5, 5, 1, &registry, &mut world);
    lighting.on_block_set(5, -7, 5, 0, &registry, &mut world);
    lighting.on_block_set(5, i32::MAX, 5, 0, &registry, &mut world);
    lighting.on_block_set(5, i32::MIN, 5, 1, &registry, &mut world);
    lighting.on_block_set(i32::MAX, i32::MAX, i32::MIN, 3, &registry, &mut world);
    assert_eq!(before, levels(&world));
}

#[test]
fn edits_keep_the_sky_light_attenuated() {
    let registry = registry();
    let mut solid = vec![false; 4 * 4096];
    let mut i = 0;
    while i < solid.len() {
        solid[i] = (i * 31 + i / 97) % 11 == 0;
        i += 1;
    }
    let mut world = Chunks::new(2, 1, 2, &solid);
    let mut lighting = Lighting::new();
    lighting.on_world_loaded(&registry, &mut world);
    assert_attenuated(&world, &registry);
    // a fixed sequence of positions, spread over the world
    let mut seed: u32 = 12345;
    let mut step = 0;
    while step < 40 {
        seed = seed.wrapping_mul(1103515245).wrapping_add(12345);
        let x = ((seed >> 16) % 32) as i32;
        seed = seed.wrapping_mul(1103515245).wrapping_add(12345);
        let y = ((seed >> 16) % 16) as i32;
        seed = seed.wrapping_mul(1103515245).wrapping_add(12345);
        let z = ((seed >> 16) % 32) as i32;
        let here = world.get_voxel(x, y, z).map(|v| v.id).unwrap();
        if here == 0 {
            // into air goes stone, or glass every third time
            let id: u8 = if step % 3 == 0 { 4 } else { 1 };
            world.set(x, y, z, id as i32);
            lighting.on_block_set(x, y, z, id, &registry, &mut world);
        } else {
            world.set(x, y, z, 0);
            lighting.on_block_set(x, y, z, 0, &registry, &mut world);
        }
        assert_attenuated(&world, &registry);
        // voxels that let no light in are dark
        let mut yy = 0;
        while yy < 16 {
            let mut zz = 0;
            while zz < 32 {
                let mut xx = 0;
                while xx < 32 {
                    let id = world.get_voxel(xx, yy, zz).map(|v| v.id).unwrap();
                    if !passes(&registry, id) {
                        assert_eq!(world.get_light(xx, yy, zz, 3), 0);
                    }
                    xx += 1;
                }
                zz += 1;
            }
            yy += 1;
        }
        step += 1;
    }
}
