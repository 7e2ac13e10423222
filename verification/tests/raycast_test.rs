use voxel_core::voxels::chunks::Chunks;
use voxel_core::voxels::raycast::{Cell, Fixed3, UNIT};

fn empty_world(w: i32, h: i32, d: i32) -> Chunks {
    let n = (w * h * d) as usize * 4096;
    let mut world = Chunks::new(w, h, d, &vec![false; n]);
    assert!(world.read(&vec![0u8; n]).is_ok());
    world
}

fn point(x: f64, y: f64, z: f64) -> Fixed3 {
    Fixed3 {
        x: (x * UNIT as f64).round() as i64,
        y: (y * UNIT as f64).round() as i64,
        z: (z * UNIT as f64).round() as i64,
    }
}

fn length(d: f64) -> i64 {
    (d * UNIT as f64).round() as i64
}

#[test]
fn ray_straight_down_onto_a_single_voxel() {
    let mut world = empty_world(1, 1, 1);
    world.set(8, 5, 8, 1);
    // the top face of the voxel is at y = 6, five voxels below the origin
    let origin = point(8.5, 11.0, 8.5);
    let down = point(0.0, -1.0, 0.0);
    let hit = world.ray_cast(origin, down, length(5.0)).expect("a hit");
    assert_eq!(hit.voxel.id, 1);
    assert_eq!(hit.cell, Cell { x: 8, y: 5, z: 8 });
    assert_eq!(hit.normal, Cell { x: 0, y: 1, z: 0 });
    assert_eq!(hit.end, point(8.5, 6.0, 8.5));
    assert!(world.ray_cast(origin, down, length(10.0)).is_some());
    assert!(world.ray_cast(origin, down, length(5.0) - 1).is_none());
    assert!(world.ray_cast(origin, down, length(4.0)).is_none());
    assert!(world.ray_cast(origin, down, 0).is_none());
}

#[test]
fn ray_from_inside_a_cell() {
    let mut world = empty_world(1, 1, 1);
    world.set(8, 5, 8, 1);
    let origin = point(8.25, 11.5, 8.75);
    let down = point(0.0, -1.0, 0.0);
    let hit = world.ray_cast(origin, down, length(5.5)).expect("a hit");
    assert_eq!(hit.cell, Cell { x: 8, y: 5, z: 8 });
    assert_eq!(hit.normal, Cell { x: 0, y: 1, z: 0 });
    assert_eq!(hit.end, point(8.25, 6.0, 8.75));
    assert!(world.ray_cast(origin, down, length(5.5) - 1).is_none());
}

#[test]
fn ray_that_starts_in_a_solid_voxel() {
    let mut world = empty_world(1, 1, 1);
    world.set(3, 3, 3, 9);
    let origin = point(3.5, 3.5, 3.5);
    let hit = world.ray_cast(origin, point(1.0, 0.0, 0.0), 0).expect("a hit");
    assert_eq!(hit.voxel.id, 9);
    assert_eq!(hit.cell, Cell { x: 3, y: 3, z: 3 });
    assert_eq!(hit.normal, Cell { x: 0, y: 0, z: 0 });
    assert_eq!(hit.end, origin);
    assert!(world.ray_cast(origin, point(1.0, 0.0, 0.0), -1).is_none());
}

#[test]
fn rays_along_every_axis() {
    let mut world = empty_world(1, 1, 1);
    world.set(8, 8, 8, 1);
    let far = length(20.0);
    let hit = world.ray_cast(point(2.5, 8.5, 8.5), point(1.0, 0.0, 0.0), far).unwrap();
    assert_eq!((hit.cell, hit.normal), (Cell { x: 8, y: 8, z: 8 }, Cell { x: -1, y: 0, z: 0 }));
    assert_eq!(hit.end, point(8.0, 8.5, 8.5));
    let hit = world.ray_cast(point(14.5, 8.5, 8.5), point(-1.0, 0.0, 0.0), far).unwrap();
    assert_eq!((hit.cell, hit.normal), (Cell { x: 8, y: 8, z: 8 }, Cell { x: 1, y: 0, z: 0 }));
    assert_eq!(hit.end, point(9.0, 8.5, 8.5));
    let hit = world.ray_cast(point(8.5, 1.5, 8.5), point(0.0, 1.0, 0.0), far).unwrap();
    assert_eq!(hit.normal, Cell { x: 0, y: -1, z: 0 });
    assert_eq!(hit.end, point(8.5, 8.0, 8.5));
    let hit = world.ray_cast(point(8.5, 8.5, 1.5), point(0.0, 0.0, 1.0), far).unwrap();
    assert_eq!(hit.normal, Cell { x: 0, y: 0, z: -1 });
    assert_eq!(hit.end, point(8.5, 8.5, 8.0));
    let hit = world.ray_cast(point(8.5, 8.5, 15.5), point(0.0, 0.0, -1.0), far).unwrap();
    assert_eq!(hit.normal, Cell { x: 0, y: 0, z: 1 });
    assert_eq!(hit.end, point(8.5, 8.5, 9.0));
}

#[test]
fn ray_that_misses() {
    let mut world = empty_world(1, 1, 1);
    world.set(8, 8, 8, 1);
    let far = length(100.0);
    assert!(world.ray_cast(point(2.5, 9.5, 8.5), point(1.0, 0.0, 0.0), far).is_none());
    assert!(world.ray_cast(point(2.5, 8.5, 8.5), point(-1.0, 0.0, 0.0), far).is_none());
    assert!(world.ray_cast(point(2.5, 8.5, 8.5), point(0.0, 0.0, 0.0), far).is_none());
    assert!(world.ray_cast(point(-50.5, 8.5, 8.5), point(1.0, 0.0, 0.0), length(10.0)).is_none());
}

#[test]
fn ray_from_outside_the_world() {
    let mut world = empty_world(1, 1, 1);
    world.set(0, 8, 8, 1);
    let hit = world.ray_cast(point(-5.5, 8.5, 8.5), point(1.0, 0.0, 0.0), length(6.0)).unwrap();
    assert_eq!(hit.cell, Cell { x: 0, y: 8, z: 8 });
    assert_eq!(hit.normal, Cell { x: -1, y: 0, z: 0 });
    assert_eq!(hit.end, point(0.0, 8.5, 8.5));
}

#[test]
fn diagonal_ray() {
    let mut world = empty_world(1, 1, 1);
    world.set(5, 4, 0, 1);
    // from (0.5, 0.5, 0.5) along (4, 3, 0): x is crossed at t = 1/8, 3/8, 5/8, 7/8, 9/8,
    // y at t = 1/6, 3/6, 5/6, 7/6; the voxel (5, 4, 0) is entered across y = 4 at t = 7/6
    let origin = point(0.5, 0.5, 0.5);
    let dir = point(4.0, 3.0, 0.0);
    let hit = world.ray_cast(origin, dir, length(2.0)).unwrap();
    assert_eq!(hit.cell, Cell { x: 5, y: 4, z: 0 });
    assert_eq!(hit.normal, Cell { x: 0, y: -1, z: 0 });
    // x = 0.5 + 14/3, rounded down to a whole unit
    assert_eq!(hit.end, Fixed3 { x: 32768 + 305834, y: 4 * 65536, z: 32768 });
    // 7/6 of a unit is 76458.67
    assert!(world.ray_cast(origin, dir, 76459).is_some());
    assert!(world.ray_cast(origin, dir, 76458).is_none());
    // the ray never enters the voxel (4, 4, 0)
    world.set(5, 4, 0, 0);
    world.set(4, 4, 0, 2);
    assert!(world.ray_cast(origin, dir, length(2.0)).is_none());
    // the voxel (5, 3, 0) is entered across x = 5 at t = 9/8
    world.set(5, 3, 0, 3);
    let hit = world.ray_cast(origin, dir, length(2.0)).unwrap();
    assert_eq!(hit.voxel.id, 3);
    assert_eq!(hit.cell, Cell { x: 5, y: 3, z: 0 });
    assert_eq!(hit.normal, Cell { x: -1, y: 0, z: 0 });
    assert_eq!(hit.end, point(5.0, 3.875, 0.5));
    assert!(world.ray_cast(origin, dir, length(1.125)).is_some());
    assert!(world.ray_cast(origin, dir, length(1.125) - 1).is_none());
}

#[test]
fn first_of_two_voxels_is_hit() {
    let mut world = empty_world(2, 1, 1);
    world.set(20, 3, 3, 1);
    world.set(10, 3, 3, 2);
    let hit = world.ray_cast(point(0.5, 3.5, 3.5), point(2.0, 0.0, 0.0), length(30.0)).unwrap();
    assert_eq!(hit.voxel.id, 2);
    assert_eq!(hit.cell, Cell { x: 10, y: 3, z: 3 });
    assert_eq!(hit.end, point(10.0, 3.5, 3.5));
    // the parameter counts multiples of the direction: 9.5 voxels are 4.75 directions
    assert!(world.ray_cast(point(0.5, 3.5, 3.5), point(2.0, 0.0, 0.0), length(4.75)).is_some());
    assert!(world.ray_cast(point(0.5, 3.5, 3.5), point(2.0, 0.0, 0.0), length(4.75) - 1).is_none());
}
