use voxel_core::lighting::light_solver::LightSolver;
use voxel_core::voxels::chunks::Chunks;
use voxel_core::voxels::{Block, BlockRegistry};

fn registry() -> BlockRegistry {
    let mut registry = BlockRegistry::new();
    let mut air = Block::new(0, 0);
    air.draw_group = 1;
    air.light_passing = true;
    registry.blocks[0] = Some(air);
    registry.blocks[1] = Some(Block::new(1, 2));
    let mut grass = Block::new(2, 4);
    grass.texture_faces[2] = 2;
    grass.texture_faces[3] = 1;
    registry.blocks[2] = Some(grass);
    let mut lamp = Block::new(3, 3);
    lamp.emission = [10, 0, 0];
    registry.blocks[3] = Some(lamp);
    let mut glass = Block::new(4, 5);
    glass.draw_group = 2;
    glass.light_passing = true;
    registry.blocks[4] = Some(glass);
    registry.blocks[5] = Some(Block::new(5, 6));
    registry
}

fn empty_world(w: i32, h: i32, d: i32) -> Chunks {
    let n = (w * h * d) as usize * 4096;
    let mut world = Chunks::new(w, h, d, &vec![false; n]);
    assert!(world.read(&vec![0u8; n]).is_ok());
    for chunk in world.chunks.iter_mut() {
        chunk.modified = false;
    }
    world
}

fn distance(a: (i32, i32, i32), b: (i32, i32, i32)) -> i32 {
    (a.0 - b.0).abs() + (a.1 - b.1).abs() + (a.2 - b.2).abs()
}

#[test]
fn new_solver_is_idle() {
    let solver = LightSolver::new(2);
    assert_eq!(solver.pending(), (0, 0));
}

#[test]
fn add_stores_the_level_and_queues_the_voxel() {
    let mut world = empty_world(2, 1, 1);
    let mut solver = LightSolver::new(1);
    solver.add(20, 5, 5, Some(12), &mut world);
    assert_eq!(solver.pending(), (0, 1));
    assert_eq!(world.get_light(20, 5, 5, 1), 12);
    assert_eq!(world.get_light(20, 5, 5, 0), 0);
    assert!(world.chunks[1].modified);
    assert!(!world.chunks[0].modified);
}

#[test]
fn add_of_a_level_that_cannot_spread_does_nothing() {
    let mut world = empty_world(1, 1, 1);
    let mut solver = LightSolver::new(0);
    solver.add(5, 5, 5, Some(1), &mut world);
    solver.add(5, 5, 5, Some(0), &mut world);
    solver.add(5, 5, 5, Some(-3), &mut world);
    solver.add(5, 5, 5, None, &mut world);
    solver._add_light(5, 5, 5, &mut world);
    assert_eq!(solver.pending(), (0, 0));
    assert_eq!(world.get_light(5, 5, 5, 0), 0);
    assert!(!world.chunks[0].modified);
}

#[test]
fn add_outside_the_world_is_dropped() {
    let mut world = empty_world(1, 1, 1);
    let mut solver = LightSolver::new(0);
    solver.add(16, 5, 5, Some(15), &mut world);
    solver.add(5, -1, 5, Some(15), &mut world);
    assert_eq!(solver.pending(), (0, 0));
    solver.solve(&registry(), &mut world);
    assert!(world.chunks[0].lightmap.map.iter().all(|w| *w == 0));
    assert!(!world.chunks[0].modified);
}

#[test]
fn add_without_emission_uses_the_stored_level() {
    let mut world = empty_world(1, 1, 1);
    world.put_light(5, 5, 5, 2, 9);
    let mut solver = LightSolver::new(2);
    solver.add(5, 5, 5, None, &mut world);
    assert_eq!(solver.pending(), (0, 1));
    solver.solve(&registry(), &mut world);
    assert_eq!(world.get_light(5, 5, 5, 2), 9);
    assert_eq!(world.get_light(5, 6, 5, 2), 8);
    assert_eq!(world.get_light(5, 5, 9, 2), 5);
}

#[test]
fn light_falls_off_by_one_level_per_step() {
    let mut world = empty_world(2, 2, 2);
    let mut solver = LightSolver::new(0);
    let source = (16, 16, 16);
    solver.add(16, 16, 16, Some(10), &mut world);
    solver.solve(&registry(), &mut world);
    assert_eq!(solver.pending(), (0, 0));
    let mut x = 0;
    while x < 32 {
        let mut y = 0;
        while y < 32 {
            let mut z = 0;
            while z < 32 {
                let d = distance(source, (x, y, z));
                let expected = if d < 10 { 10 - d } else { 0 };
                assert_eq!(world.get_light(x, y, z, 0) as i32, expected);
                assert_eq!(world.get_light(x, y, z, 1), 0);
                assert_eq!(world.get_light(x, y, z, 3), 0);
                z += 1;
            }
            y += 1;
        }
        x += 1;
    }
    assert!(world.chunks.iter().all(|c| c.modified));
}

#[test]
fn opaque_blocks_take_no_light() {
    let mut world = empty_world(1, 1, 1);
    world.set(6, 5, 5, 1);
    world.set(4, 5, 5, 4);
    world.set(5, 6, 5, 77);
    let mut solver = LightSolver::new(3);
    solver.add(5, 5, 5, Some(15), &mut world);
    solver.solve(&registry(), &mut world);
    // stone is opaque
    assert_eq!(world.get_light(6, 5, 5, 3), 0);
    // light reaches the voxel behind the stone the long way round
    assert_eq!(world.get_light(7, 5, 5, 3), 11);
    // glass lets light pass
    assert_eq!(world.get_light(4, 5, 5, 3), 14);
    assert_eq!(world.get_light(3, 5, 5, 3), 13);
    // a block without a definition is opaque
    assert_eq!(world.get_light(5, 6, 5, 3), 0);
    assert_eq!(world.get_light(5, 4, 5, 3), 14);
}

#[test]
fn air_passes_light_without_a_definition() {
    let mut world = empty_world(1, 1, 1);
    let mut solver = LightSolver::new(0);
    solver.add(5, 5, 5, Some(4), &mut world);
    solver.solve(&BlockRegistry::new(), &mut world);
    assert_eq!(world.get_light(5, 5, 6, 0), 3);
    assert_eq!(world.get_light(5, 5, 8, 0), 1);
    assert_eq!(world.get_light(5, 5, 9, 0), 0);
}

#[test]
fn light_is_lost_at_the_edge_of_the_world() {
    let mut world = empty_world(1, 1, 1);
    let mut solver = LightSolver::new(0);
    solver.add(0, 0, 0, Some(15), &mut world);
    solver.solve(&registry(), &mut world);
    assert_eq!(world.get_light(0, 0, 0, 0), 15);
    assert_eq!(world.get_light(15, 0, 0, 0), 0);
    assert_eq!(world.get_light(14, 0, 0, 0), 1);
    assert_eq!(world.get_light(-1, 0, 0, 0), 0);
    assert_eq!(world.get_light(5, 5, 4, 0), 1);
}

#[test]
fn remove_darkens_and_queues_the_voxel() {
    let mut world = empty_world(1, 1, 1);
    world.put_light(5, 5, 5, 1, 7);
    world.chunks[0].modified = false;
    let mut solver = LightSolver::new(1);
    solver.remove(5, 5, 5, &mut world);
    assert_eq!(solver.pending(), (1, 0));
    assert_eq!(world.get_light(5, 5, 5, 1), 0);
    assert!(world.chunks[0].modified);
}

#[test]
fn remove_of_a_dark_voxel_is_a_no_op() {
    let mut world = empty_world(2, 2, 2);
    world.put_light(5, 5, 5, 0, 7);
    for chunk in world.chunks.iter_mut() {
        chunk.modified = false;
    }
    let before: Vec<Vec<u16>> = world.chunks.iter().map(|c| c.lightmap.map.clone()).collect();
    let mut solver = LightSolver::new(1);
    solver.remove(5, 5, 5, &mut world);
    assert_eq!(solver.pending(), (0, 0));
    solver.solve(&registry(), &mut world);
    assert_eq!(solver.pending(), (0, 0));
    solver.remove(40, 5, 5, &mut world);
    solver.solve(&registry(), &mut world);
    assert_eq!(solver.pending(), (0, 0));
    assert!(world.chunks.iter().all(|c| !c.modified));
    let after: Vec<Vec<u16>> = world.chunks.iter().map(|c| c.lightmap.map.clone()).collect();
    assert_eq!(before, after);
}

#[test]
fn removing_the_only_source_darkens_everything() {
    let mut world = empty_world(2, 2, 2);
    let mut solver = LightSolver::new(2);
    solver.add(16, 16, 16, Some(15), &mut world);
    solver.solve(&registry(), &mut world);
    assert_eq!(world.get_light(20, 16, 16, 2), 11);
    solver.remove(16, 16, 16, &mut world);
    solver.solve(&registry(), &mut world);
    assert_eq!(solver.pending(), (0, 0));
    for chunk in world.chunks.iter() {
        assert!(chunk.lightmap.map.iter().all(|w| *w == 0));
    }
}

#[test]
fn removing_one_of_two_sources_keeps_the_light_of_the_other() {
    let mut world = empty_world(2, 1, 1);
    let mut solver = LightSolver::new(0);
    solver.add(4, 8, 8, Some(12), &mut world);
    solver.add(12, 8, 8, Some(12), &mut world);
    solver.solve(&registry(), &mut world);
    assert_eq!(world.get_light(8, 8, 8, 0), 8);
    assert_eq!(world.get_light(5, 8, 8, 0), 11);
    solver.remove(4, 8, 8, &mut world);
    solver.solve(&registry(), &mut world);
    let other = (12, 8, 8);
    let mut x = 0;
    while x < 32 {
        let mut y = 0;
        while y < 16 {
            let d = distance(other, (x, y, 8));
            let expected = if d < 12 { 12 - d } else { 0 };
            assert_eq!(world.get_light(x, y, 8, 0) as i32, expected);
            y += 1;
        }
        x += 1;
    }
}

#[test]
fn brighter_light_overrides_dimmer_light() {
    let mut world = empty_world(1, 1, 1);
    let mut solver = LightSolver::new(0);
    solver.add(2, 8, 8, Some(5), &mut world);
    solver.solve(&registry(), &mut world);
    solver.add(4, 8, 8, Some(15), &mut world);
    solver.solve(&registry(), &mut world);
    assert_eq!(world.get_light(2, 8, 8, 0), 13);
    assert_eq!(world.get_light(3, 8, 8, 0), 14);
    assert_eq!(world.get_light(0, 8, 8, 0), 11);
}
