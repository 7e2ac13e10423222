//! Voxel ray casting in exact fixed-point arithmetic.
//!
//! Points, directions and distances are given in units of 1/65536 voxel. A
//! point on the ray is `origin + t * direction`, where the parameter `t` is a
//! fraction. The ray walks from cell to cell, always across the cell face it
//! reaches first, and stops at the first cell that holds a block.

use vstd::prelude::*;
use crate::voxels::Voxel;
use crate::voxels::chunks::Chunks;
use crate::voxels::raycast_laws::{hit_sound, lemma_ray_hit_on_cell};
use crate::voxels::world::WorldView;

verus! {

/// Fixed-point units per voxel.
pub const UNIT: i64 = 65536;

/// Largest magnitude of a ray origin coordinate, exclusive: 2^47 units.
pub const ORIGIN_LIMIT: i64 = 0x8000_0000_0000;

/// Largest magnitude of a direction coordinate and largest distance,
/// exclusive: 2^31 units.
pub const REACH_LIMIT: i64 = 0x8000_0000;

/// A point or a direction in fixed-point units.
#[derive(Clone, Copy, Debug, PartialEq, Eq, Structural)]
pub struct Fixed3 {
    pub x: i64,
    pub y: i64,
    pub z: i64,
}

/// A voxel position, or a vector of whole voxels.
#[derive(Clone, Copy, Debug, PartialEq, Eq, Structural)]
pub struct Cell {
    pub x: i32,
    pub y: i32,
    pub z: i32,
}

/// What a ray hit: the voxel, the point where the ray entered it, its
/// position, and the outward normal of the face that the ray came through
/// (zero if the ray started inside the voxel).
#[derive(Clone, Copy, Debug)]
pub struct RayHit {
    pub voxel: Voxel,
    pub end: Fixed3,
    pub cell: Cell,
    pub normal: Cell,
}

/// A ray: origin, direction and the largest ray parameter to search, the
/// parameter in units of 1/65536.
pub struct Ray {
    pub px: int,
    pub py: int,
    pub pz: int,
    pub dx: int,
    pub dy: int,
    pub dz: int,
    pub max: int,
}

/// State of a walk along a ray: the current cell; for each axis the
/// numerator of the parameter at which the ray leaves the cell along that
/// axis, over the magnitude of the direction along the axis; the parameter
/// `tn / td` at which the ray entered the cell; and the axis stepped last
/// (-1 before the first step).
pub struct March {
    pub ix: int,
    pub iy: int,
    pub iz: int,
    pub nx: int,
    pub ny: int,
    pub nz: int,
    pub tn: int,
    pub td: int,
    pub stepped: int,
}

/// Progress of a walk: still going, ended with a hit, or ended without.
pub enum Trace {
    Going(March),
    Hit(RayHit),
    Miss,
}

/// Absolute value.
pub open spec fn magnitude(v: int) -> int {
    if v < 0 {
        -v
    } else {
        v
    }
}

/// Step along an axis for direction component `d`: towards larger
/// coordinates for a positive component, towards smaller ones otherwise.
pub open spec fn toward(d: int) -> int {
    if d > 0 {
        1
    } else {
        -1
    }
}

/// Distance, in units, from coordinate `p` to the boundary of its cell that
/// lies in the direction of `d`.
pub open spec fn first_crossing(p: int, d: int) -> int {
    if d > 0 {
        (p / 65536 + 1) * 65536 - p
    } else {
        p - (p / 65536) * 65536
    }
}

/// The walk at the origin of the ray.
pub open spec fn start(ray: Ray) -> March {
    March {
        ix: ray.px / 65536,
        iy: ray.py / 65536,
        iz: ray.pz / 65536,
        nx: first_crossing(ray.px, ray.dx),
        ny: first_crossing(ray.py, ray.dy),
        nz: first_crossing(ray.pz, ray.dz),
        tn: 0,
        td: 1,
        stepped: -1,
    }
}

/// Whether the fraction `n1 / d1` is less than `n2 / d2`, where a zero
/// denominator stands for infinity.
pub open spec fn sooner(n1: int, d1: int, n2: int, d2: int) -> bool {
    d1 != 0 && (d2 == 0 || n1 * d2 < n2 * d1)
}

/// The axis along which the ray leaves the current cell: x only if it is
/// strictly first, else y only if it is strictly before z, else z.
pub open spec fn next_axis(ray: Ray, m: March) -> int {
    let ax = magnitude(ray.dx);
    let ay = magnitude(ray.dy);
    let az = magnitude(ray.dz);
    if sooner(m.nx, ax, m.ny, ay) {
        if sooner(m.nx, ax, m.nz, az) {
            0
        } else {
            2
        }
    } else {
        if sooner(m.ny, ay, m.nz, az) {
            1
        } else {
            2
        }
    }
}

/// Whether the parameter `tn / td` lies within the search distance.
pub open spec fn reached(ray: Ray, tn: int, td: int) -> bool {
    tn * 65536 <= ray.max * td
}

/// Numerator and denominator of the parameter at which the ray leaves the
/// current cell along `axis`.
pub open spec fn crossing(ray: Ray, m: March, axis: int) -> (int, int) {
    if axis == 0 {
        (m.nx, magnitude(ray.dx))
    } else if axis == 1 {
        (m.ny, magnitude(ray.dy))
    } else {
        (m.nz, magnitude(ray.dz))
    }
}

/// The walk after a step across the cell face along `axis`.
pub open spec fn advance(ray: Ray, m: March, axis: int) -> March {
    let (n, d) = crossing(ray, m, axis);
    if axis == 0 {
        March { ix: m.ix + toward(ray.dx), nx: m.nx + 65536, tn: n, td: d, stepped: 0, ..m }
    } else if axis == 1 {
        March { iy: m.iy + toward(ray.dy), ny: m.ny + 65536, tn: n, td: d, stepped: 1, ..m }
    } else {
        March { iz: m.iz + toward(ray.dz), nz: m.nz + 65536, tn: n, td: d, stepped: 2, ..m }
    }
}

/// The hit record for a walk that stands in a cell holding block `id`.
pub open spec fn hit_of(ray: Ray, m: March, id: u8) -> RayHit {
    RayHit {
        voxel: Voxel { id },
        end: Fixed3 {
            x: (ray.px + (m.tn * ray.dx) / m.td) as i64,
            y: (ray.py + (m.tn * ray.dy) / m.td) as i64,
            z: (ray.pz + (m.tn * ray.dz) / m.td) as i64,
        },
        cell: Cell { x: m.ix as i32, y: m.iy as i32, z: m.iz as i32 },
        normal: Cell {
            x: if m.stepped == 0 {
                (-toward(ray.dx)) as i32
            } else {
                0
            },
            y: if m.stepped == 1 {
                (-toward(ray.dy)) as i32
            } else {
                0
            },
            z: if m.stepped == 2 {
                (-toward(ray.dz)) as i32
            } else {
                0
            },
        },
    }
}

/// One step of a walk. A cell that holds a block other than air ends the
/// walk with a hit. Otherwise the ray crosses into the next cell, unless it
/// never leaves the cell or leaves it beyond the search distance: then the
/// walk ends without a hit.
pub open spec fn ray_step(world: WorldView, ray: Ray, m: March) -> Trace {
    let found = world.block_at(m.ix, m.iy, m.iz);
    if found is Some && found->0 != 0 {
        Trace::Hit(hit_of(ray, m, found->0))
    } else {
        let axis = next_axis(ray, m);
        let (n, d) = crossing(ray, m, axis);
        if d == 0 || !reached(ray, n, d) {
            Trace::Miss
        } else {
            Trace::Going(advance(ray, m, axis))
        }
    }
}

/// The walk after at most `n` steps from `m`.
pub open spec fn march(world: WorldView, ray: Ray, m: March, n: nat) -> Trace
    decreases n,
{
    if n == 0 {
        Trace::Going(m)
    } else {
        match ray_step(world, ray, m) {
            Trace::Going(next) => march(world, ray, next, (n - 1) as nat),
            done => done,
        }
    }
}

/// What the ray hits in `world`: the hit with which its walk ends, or
/// nothing if the walk ends without a hit or the search distance is
/// negative.
pub open spec fn ray_result(world: WorldView, ray: Ray) -> Option<RayHit> {
    if ray.max < 0 {
        None
    } else {
        let n = choose|n: nat| !(march(world, ray, start(ray), n) is Going);
        match march(world, ray, start(ray), n) {
            Trace::Hit(hit) => Some(hit),
            _ => None,
        }
    }
}

/// A walk that has ended stays as it ended however many more steps are
/// allowed.
pub proof fn lemma_march_done(world: WorldView, ray: Ray, m: March, n: nat, more: nat)
    requires
        !(march(world, ray, m, n) is Going),
    ensures
        march(world, ray, m, n + more) == march(world, ray, m, n),
    decreases n,
{
    if n > 0 {
        match ray_step(world, ray, m) {
            Trace::Going(next) => {
                lemma_march_done(world, ray, next, (n - 1) as nat, more);
            },
            _ => {},
        }
    }
}

/// One more step after `n` steps that are still going.
pub proof fn lemma_march_next(world: WorldView, ray: Ray, m: March, n: nat, at: March)
    requires
        march(world, ray, m, n) == Trace::Going(at),
    ensures
        march(world, ray, m, n + 1) == ray_step(world, ray, at),
    decreases n,
{
    if n > 0 {
        match ray_step(world, ray, m) {
            Trace::Going(next) => {
                lemma_march_next(world, ray, next, (n - 1) as nat, at);
            },
            _ => {},
        }
    } else {
        assert(march(world, ray, m, 1) == match ray_step(world, ray, m) {
            Trace::Going(next) => march(world, ray, next, 0),
            done => done,
        });
    }
}

/// However many steps a walk takes to end, it ends the same way.
pub proof fn lemma_ray_result(world: WorldView, ray: Ray, n: nat)
    requires
        ray.max >= 0,
        !(march(world, ray, start(ray), n) is Going),
    ensures
        ray_result(world, ray) == match march(world, ray, start(ray), n) {
            Trace::Hit(hit) => Some(hit),
            _ => None,
        },
{
    let k = choose|k: nat| !(march(world, ray, start(ray), k) is Going);
    if k >= n {
        lemma_march_done(world, ray, start(ray), n, (k - n) as nat);
    } else {
        lemma_march_done(world, ray, start(ray), k, (n - k) as nat);
    }
}

/// Whether origin `a`, direction `dir` and distance `max_dist` are small
/// enough for a walk in 128-bit arithmetic.
pub open spec fn ray_fits(a: Fixed3, dir: Fixed3, max_dist: i64) -> bool {
    &&& -ORIGIN_LIMIT <= a.x < ORIGIN_LIMIT
    &&& -ORIGIN_LIMIT <= a.y < ORIGIN_LIMIT
    &&& -ORIGIN_LIMIT <= a.z < ORIGIN_LIMIT
    &&& -REACH_LIMIT < dir.x < REACH_LIMIT
    &&& -REACH_LIMIT < dir.y < REACH_LIMIT
    &&& -REACH_LIMIT < dir.z < REACH_LIMIT
    &&& max_dist < REACH_LIMIT
}

/// The ray with origin `a`, direction `dir` and search distance `max_dist`.
pub open spec fn ray_of(a: Fixed3, dir: Fixed3, max_dist: i64) -> Ray {
    Ray {
        px: a.x as int,
        py: a.y as int,
        pz: a.z as int,
        dx: dir.x as int,
        dy: dir.y as int,
        dz: dir.z as int,
        max: max_dist as int,
    }
}

/// Floor of `a / b` for a positive divisor.
fn floor_div(a: i128, b: i128) -> (r: i128)
    requires
        b > 0,
        -0x4000_0000_0000_0000_0000_0000 <= a <= 0x4000_0000_0000_0000_0000_0000,
    ensures
        r == a as int / b as int,
{
    if a >= 0 {
        a / b
    } else {
        let m: i128 = -(a + 1);
        let q: i128 = m / b;
        proof {
            vstd::arithmetic::div_mod::lemma_fundamental_div_mod(m as int, b as int);
            vstd::arithmetic::div_mod::lemma_mod_bound(m as int, b as int);
            vstd::arithmetic::div_mod::lemma_div_pos_is_pos(m as int, b as int);
            vstd::arithmetic::div_mod::lemma_div_is_ordered_by_denominator(
                m as int,
                1,
                b as int,
            );
            let rest = b - 1 - (m as int % b as int);
            assert(a as int == (-q - 1) * b + rest) by (nonlinear_arith)
                requires
                    m as int == b * q + (m as int % b as int),
                    rest == b - 1 - (m as int % b as int),
                    m == -(a + 1),
            ;
            vstd::arithmetic::div_mod::lemma_fundamental_div_mod_converse(
                a as int,
                b as int,
                -q - 1,
                rest,
            );
        }
        -q - 1
    }
}

/// Magnitude of a direction component.
fn magnitude_of(v: i64) -> (r: i64)
    requires
        -REACH_LIMIT < v < REACH_LIMIT,
    ensures
        r == magnitude(v as int),
        0 <= r < REACH_LIMIT,
{
    if v < 0 {
        -v
    } else {
        v
    }
}

/// Cell coordinate of `p` and distance from `p` to the cell boundary that
/// lies in the direction of `d`.
fn first_crossing_of(p: i64, d: i64) -> (r: (i64, i64))
    requires
        -ORIGIN_LIMIT <= p < ORIGIN_LIMIT,
    ensures
        r.0 == p as int / 65536,
        r.1 == first_crossing(p as int, d as int),
        0 <= r.1 <= 65536,
        -0x8000_0000 <= r.0 < 0x8000_0000,
        d > 0 ==> r.1 == (r.0 + 1) * 65536 - p,
        d <= 0 ==> r.1 == p - r.0 * 65536,
{
    let cell = floor_div(p as i128, UNIT as i128) as i64;
    if d > 0 {
        (cell, (cell + 1) * UNIT - p)
    } else {
        (cell, p - cell * UNIT)
    }
}

/// Whether `n1 / d1` is less than `n2 / d2`, a zero denominator standing
/// for infinity.
fn is_sooner(n1: i64, d1: i64, n2: i64, d2: i64) -> (r: bool)
    requires
        0 <= n1 <= ORIGIN_LIMIT,
        0 <= n2 <= ORIGIN_LIMIT,
        0 <= d1 < REACH_LIMIT,
        0 <= d2 < REACH_LIMIT,
    ensures
        r == sooner(n1 as int, d1 as int, n2 as int, d2 as int),
{
    if d1 == 0 {
        false
    } else if d2 == 0 {
        true
    } else {
        proof {
            lemma_product_fits(n1 as int, d2 as int);
            lemma_product_fits(n2 as int, d1 as int);
        }
        (n1 as i128) * (d2 as i128) < (n2 as i128) * (d1 as i128)
    }
}

/// The product of a crossing numerator and a direction magnitude stays
/// below 2^78.
proof fn lemma_product_fits(n: int, d: int)
    requires
        0 <= n <= ORIGIN_LIMIT,
        0 <= d <= REACH_LIMIT,
    ensures
        0 <= n * d <= 0x4000_0000_0000_0000_0000,
{
    assert(0 <= n * d <= 0x8000_0000_0000 * 0x8000_0000) by (nonlinear_arith)
        requires
            0 <= n <= 0x8000_0000_0000,
            0 <= d <= 0x8000_0000,
    ;
}

} // verus!

verus! {

/// A quotient lies within the bound that its numerator keeps per unit of
/// the denominator.
proof fn lemma_quotient_bound(x: int, c: int, d: int)
    requires
        d > 0,
        c >= 0,
        -(c * d) <= x <= c * d,
    ensures
        -c <= x / d <= c,
{
    vstd::arithmetic::div_mod::lemma_fundamental_div_mod(x, d);
    vstd::arithmetic::div_mod::lemma_mod_bound(x, d);
    let q = x / d;
    let r = x % d;
    assert(q <= c) by (nonlinear_arith)
        requires
            x == d * q + r,
            0 <= r < d,
            x <= c * d,
            d > 0,
    ;
    assert(-c <= q) by (nonlinear_arith)
        requires
            x == d * q + r,
            0 <= r < d,
            -(c * d) <= x,
            d > 0,
    ;
}

/// Offset of the point at parameter `tn / td` from the ray origin along an
/// axis with direction component `d`, rounded down to a whole unit.
fn offset_at(tn: i64, td: i64, d: i64, max_dist: i64) -> (r: i64)
    requires
        0 <= tn <= ORIGIN_LIMIT,
        0 < td < REACH_LIMIT,
        -REACH_LIMIT < d < REACH_LIMIT,
        0 <= max_dist < REACH_LIMIT,
        tn * 65536 <= max_dist * td,
    ensures
        r == (tn * d) / (td as int),
        -0x4000_0000_0000 <= r <= 0x4000_0000_0000,
{
    proof {
        assert(max_dist * td <= 0x8000_0000 * td) by (nonlinear_arith)
            requires
                0 <= max_dist <= 0x8000_0000,
                td > 0,
        ;
        assert(tn <= 32768 * td);
        assert(-(0x4000_0000_0000 * td) <= tn * d <= 0x4000_0000_0000 * td) by (nonlinear_arith)
            requires
                0 <= tn <= 32768 * td,
                -0x8000_0000 <= d <= 0x8000_0000,
                td > 0,
        ;
        assert(0x4000_0000_0000 * td <= 0x4000_0000_0000 * 0x8000_0000) by (nonlinear_arith)
            requires
                0 < td <= 0x8000_0000,
        ;
        lemma_quotient_bound(tn * d, 0x4000_0000_0000, td as int);
    }
    floor_div((tn as i128) * (d as i128), td as i128) as i64
}

impl Chunks {
    /// Block id at a position given by 64-bit coordinates; absent outside
    /// the grid.
    fn block_id_at(&self, x: i64, y: i64, z: i64) -> (r: Option<u8>)
        requires
            self.wf(),
        ensures
            r == self@.block_at(x as int, y as int, z as int),
    {
        if x < 0 || y < 0 || z < 0 || x > 2147483647 || y > 2147483647 || z > 2147483647 {
            proof {
                if self@.in_world(x as int, y as int, z as int) {
                    self@.lemma_slot(x as int, y as int, z as int);
                }
            }
            return None;
        }
        match self.get_voxel(x as i32, y as i32, z as i32) {
            Some(v) => Some(v.id),
            None => None,
        }
    }

    /// Casts a ray from `a` along `dir` and returns the first voxel other
    /// than air whose cell the ray enters at a parameter of at most
    /// `max_dist / 65536`, or nothing if there is none. All three arguments
    /// count units of 1/65536 voxel.
    pub fn ray_cast(&self, a: Fixed3, dir: Fixed3, max_dist: i64) -> (r: Option<RayHit>)
        requires
            self.wf(),
            ray_fits(a, dir, max_dist),
        ensures
            r == ray_result(self@, ray_of(a, dir, max_dist)),
            r is Some ==> hit_sound(self@, r->0),
    {
        proof {
            lemma_ray_hit_on_cell(self@, a, dir, max_dist);
        }
        if max_dist < 0 {
            return None;
        }
        let ghost ray = ray_of(a, dir, max_dist);
        let ax = magnitude_of(dir.x);
        let ay = magnitude_of(dir.y);
        let az = magnitude_of(dir.z);
        let stepx: i64 = if dir.x > 0 {
            1
        } else {
            -1
        };
        let stepy: i64 = if dir.y > 0 {
            1
        } else {
            -1
        };
        let stepz: i64 = if dir.z > 0 {
            1
        } else {
            -1
        };
        let (cx, fx) = first_crossing_of(a.x, dir.x);
        let (cy, fy) = first_crossing_of(a.y, dir.y);
        let (cz, fz) = first_crossing_of(a.z, dir.z);
        let (mut ix, mut iy, mut iz) = (cx, cy, cz);
        let (mut nx, mut ny, mut nz) = (fx, fy, fz);
        proof {
            lemma_product_fits(max_dist as int, ax as int);
            lemma_product_fits(max_dist as int, ay as int);
            lemma_product_fits(max_dist as int, az as int);
            assert(0 <= max_dist * ax <= 0x8000_0000 * 0x8000_0000 && 0 <= max_dist * ay
                <= 0x8000_0000 * 0x8000_0000 && 0 <= max_dist * az <= 0x8000_0000 * 0x8000_0000)
                by (nonlinear_arith)
                requires
                    0 <= max_dist <= 0x8000_0000,
                    0 <= ax <= 0x8000_0000,
                    0 <= ay <= 0x8000_0000,
                    0 <= az <= 0x8000_0000,
            ;
        }
        let limx: i128 = (max_dist as i128) * (ax as i128);
        let limy: i128 = (max_dist as i128) * (ay as i128);
        let limz: i128 = (max_dist as i128) * (az as i128);
        let mut tn: i64 = 0;
        let mut td: i64 = 1;
        let mut stepped: i32 = -1;
        let ghost mut steps: nat = 0;
        loop
            invariant
                self.wf(),
                ray_fits(a, dir, max_dist),
                0 <= max_dist,
                ray == ray_of(a, dir, max_dist),
                ray_result(self@, ray) is Some ==> hit_sound(self@, ray_result(self@, ray)->0),
                ax == magnitude(dir.x as int),
                ay == magnitude(dir.y as int),
                az == magnitude(dir.z as int),
                stepx == toward(dir.x as int),
                stepy == toward(dir.y as int),
                stepz == toward(dir.z as int),
                limx == max_dist * ax,
                limy == max_dist * ay,
                limz == max_dist * az,
                0 <= limx <= 0x4000_0000_0000_0000,
                0 <= limy <= 0x4000_0000_0000_0000,
                0 <= limz <= 0x4000_0000_0000_0000,
                0 <= nx,
                0 <= ny,
                0 <= nz,
                (nx - 65536) * 65536 <= limx,
                (ny - 65536) * 65536 <= limy,
                (nz - 65536) * 65536 <= limz,
                dir.x > 0 ==> nx == (ix + 1) * 65536 - a.x,
                dir.x <= 0 ==> nx == a.x - ix * 65536,
                dir.y > 0 ==> ny == (iy + 1) * 65536 - a.y,
                dir.y <= 0 ==> ny == a.y - iy * 65536,
                dir.z > 0 ==> nz == (iz + 1) * 65536 - a.z,
                dir.z <= 0 ==> nz == a.z - iz * 65536,
                0 <= tn <= ORIGIN_LIMIT,
                0 < td < REACH_LIMIT,
                tn * 65536 <= max_dist * td,
                -1 <= stepped <= 2,
                march(self@, ray, start(ray), steps) == Trace::Going(
                    March {
                        ix: ix as int,
                        iy: iy as int,
                        iz: iz as int,
                        nx: nx as int,
                        ny: ny as int,
                        nz: nz as int,
                        tn: tn as int,
                        td: td as int,
                        stepped: stepped as int,
                    },
                ),
            decreases
                    (limx - nx * 65536) + (limy - ny * 65536) + (limz - nz * 65536) + 3 * 65536
                        * 65536,
        {
            let ghost m = March {
                ix: ix as int,
                iy: iy as int,
                iz: iz as int,
                nx: nx as int,
                ny: ny as int,
                nz: nz as int,
                tn: tn as int,
                td: td as int,
                stepped: stepped as int,
            };
            proof {
                lemma_march_next(self@, ray, start(ray), steps, m);
            }
            let found = self.block_id_at(ix, iy, iz);
            if let Some(id) = found {
                if id != 0 {
                    proof {
                        self@.lemma_slot(ix as int, iy as int, iz as int);
                        lemma_ray_result(self@, ray, steps + 1);
                    }
                    let end = Fixed3 {
                        x: a.x + offset_at(tn, td, dir.x, max_dist),
                        y: a.y + offset_at(tn, td, dir.y, max_dist),
                        z: a.z + offset_at(tn, td, dir.z, max_dist),
                    };
                    let normal = Cell {
                        x: if stepped == 0 {
                            (-stepx) as i32
                        } else {
                            0
                        },
                        y: if stepped == 1 {
                            (-stepy) as i32
                        } else {
                            0
                        },
                        z: if stepped == 2 {
                            (-stepz) as i32
                        } else {
                            0
                        },
                    };
                    return Some(
                        RayHit {
                            voxel: Voxel { id },
                            end,
                            cell: Cell { x: ix as i32, y: iy as i32, z: iz as i32 },
                            normal,
                        },
                    );
                }
            }
            let axis: i32 = if is_sooner(nx, ax, ny, ay) {
                if is_sooner(nx, ax, nz, az) {
                    0
                } else {
                    2
                }
            } else {
                if is_sooner(ny, ay, nz, az) {
                    1
                } else {
                    2
                }
            };
            let (n, d, lim) = if axis == 0 {
                (nx, ax, limx)
            } else if axis == 1 {
                (ny, ay, limy)
            } else {
                (nz, az, limz)
            };
            if d == 0 || (n as i128) * 65536 > lim {
                proof {
                    lemma_ray_result(self@, ray, steps + 1);
                }
                return None;
            }
            if axis == 0 {
                ix = ix + stepx;
                nx = nx + UNIT;
            } else if axis == 1 {
                iy = iy + stepy;
                ny = ny + UNIT;
            } else {
                iz = iz + stepz;
                nz = nz + UNIT;
            }
            tn = n;
            td = d;
            stepped = axis;
            proof {
                steps = steps + 1;
            }
        }
    }
}

} // verus!
