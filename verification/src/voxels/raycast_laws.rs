//! Geometry of the ray walk: the walk stays on the ray, so a hit lies on the
//! face of the cell that it reports.

use vstd::prelude::*;
use crate::voxels::raycast::{Fixed3, March, Ray, RayHit, Trace, advance, crossing, first_crossing,
    hit_of, magnitude, march, next_axis, ray_of, ray_result, ray_step, sooner, start, toward};
use crate::voxels::world::WorldView;

verus! {

/// Whether the walk is sound along one axis: the crossing numerator `n`
/// belongs to cell `i`, and the parameter `tn / td` lies between the
/// parameters at which the ray enters and leaves the cell along the axis.
/// `p` and `d` are origin and direction along the axis.
pub open spec fn axis_sound(p: int, d: int, i: int, n: int, tn: int, td: int) -> bool {
    &&& d > 0 ==> n == (i + 1) * 65536 - p
    &&& d <= 0 ==> n == p - i * 65536
    &&& d != 0 ==> tn * magnitude(d) <= n * td && (n - 65536) * td <= tn * magnitude(d)
    &&& d == 0 ==> 0 <= n <= 65536
}

/// Whether the walk has just crossed into its cell along an axis: the
/// parameter is the one at which the ray enters the cell along the axis.
pub open spec fn axis_entered(d: int, n: int, tn: int, td: int) -> bool {
    d != 0 && tn * magnitude(d) == (n - 65536) * td
}

/// Whether a walk is sound: its parameter is a proper fraction, the point
/// of the ray at that parameter lies in the current cell, and it lies on
/// the cell face across which the walk stepped last.
pub open spec fn march_sound(ray: Ray, m: March) -> bool {
    &&& m.td > 0
    &&& m.tn >= 0
    &&& -1 <= m.stepped <= 2
    &&& axis_sound(ray.px, ray.dx, m.ix, m.nx, m.tn, m.td)
    &&& axis_sound(ray.py, ray.dy, m.iy, m.ny, m.tn, m.td)
    &&& axis_sound(ray.pz, ray.dz, m.iz, m.nz, m.tn, m.td)
    &&& m.stepped == 0 ==> axis_entered(ray.dx, m.nx, m.tn, m.td)
    &&& m.stepped == 1 ==> axis_entered(ray.dy, m.ny, m.tn, m.td)
    &&& m.stepped == 2 ==> axis_entered(ray.dz, m.nz, m.tn, m.td)
}

/// Fractions with positive denominators compare transitively.
proof fn lemma_fraction_order(a: int, b: int, c: int, d: int, e: int, f: int)
    requires
        b > 0,
        d > 0,
        f > 0,
        a * d <= c * b,
        c * f <= e * d,
    ensures
        a * f <= e * b,
{
    assert(a * d * f <= c * b * f) by (nonlinear_arith)
        requires
            a * d <= c * b,
            f > 0,
    ;
    assert(c * f * b <= e * d * b) by (nonlinear_arith)
        requires
            c * f <= e * d,
            b > 0,
    ;
    assert(c * b * f == c * f * b) by (nonlinear_arith);
    assert(a * d * f == (a * f) * d) by (nonlinear_arith);
    assert(e * d * b == (e * b) * d) by (nonlinear_arith);
    assert(a * f <= e * b) by (nonlinear_arith)
        requires
            (a * f) * d <= (e * b) * d,
            d > 0,
    ;
}

/// The walk at the origin of a ray is sound.
pub proof fn lemma_start_sound(ray: Ray)
    ensures
        march_sound(ray, start(ray)),
{
    let m = start(ray);
    assert(0 <= first_crossing(ray.px, ray.dx) <= 65536);
    assert(0 <= first_crossing(ray.py, ray.dy) <= 65536);
    assert(0 <= first_crossing(ray.pz, ray.dz) <= 65536);
    assert(0 * magnitude(ray.dx) == 0 && 0 * magnitude(ray.dy) == 0 && 0 * magnitude(ray.dz) == 0);
}

/// The crossing that the walk takes next is the earliest: no other axis is
/// crossed before it.
proof fn lemma_next_axis_first(ray: Ray, m: March)
    requires
        m.nx >= 0,
        m.ny >= 0,
        m.nz >= 0,
        crossing(ray, m, next_axis(ray, m)).1 != 0,
    ensures
        ({
            let (n, d) = crossing(ray, m, next_axis(ray, m));
            &&& ray.dx != 0 ==> n * magnitude(ray.dx) <= m.nx * d
            &&& ray.dy != 0 ==> n * magnitude(ray.dy) <= m.ny * d
            &&& ray.dz != 0 ==> n * magnitude(ray.dz) <= m.nz * d
        }),
{
    let ax = magnitude(ray.dx);
    let ay = magnitude(ray.dy);
    let az = magnitude(ray.dz);
    let axis = next_axis(ray, m);
    if sooner(m.nx, ax, m.ny, ay) {
        if sooner(m.nx, ax, m.nz, az) {
        } else {
            // z is crossed no later than x, and x before y
            if ay != 0 {
                lemma_fraction_order(m.nz, az, m.nx, ax, m.ny, ay);
            }
        }
    } else {
        if sooner(m.ny, ay, m.nz, az) {
        } else {
            // z is crossed no later than y, and y no later than x
            if ax != 0 && ay != 0 {
                lemma_fraction_order(m.nz, az, m.ny, ay, m.nx, ax);
            }
        }
    }
}

/// A step keeps one axis sound when the walk crosses along another axis at
/// the parameter `n / d`, which lies between the current parameter and the
/// parameter at which the ray leaves the cell along this axis.
proof fn lemma_other_axis_sound(p: int, dir: int, i: int, na: int, tn: int, td: int, n: int, d: int)
    requires
        axis_sound(p, dir, i, na, tn, td),
        td > 0,
        d > 0,
        tn * d <= n * td,
        dir != 0 ==> n * magnitude(dir) <= na * d,
    ensures
        axis_sound(p, dir, i, na, n, d),
{
    if dir != 0 {
        lemma_fraction_order(na - 65536, magnitude(dir), tn, td, n, d);
    }
}

/// A step keeps the walk sound.
pub proof fn lemma_step_sound(world: WorldView, ray: Ray, m: March)
    requires
        march_sound(ray, m),
        ray_step(world, ray, m) is Going,
    ensures
        march_sound(ray, ray_step(world, ray, m)->Going_0),
{
    let axis = next_axis(ray, m);
    let (n, d) = crossing(ray, m, axis);
    let next = advance(ray, m, axis);
    assert(m.nx >= 0 && m.ny >= 0 && m.nz >= 0) by {
        if ray.dx != 0 {
            assert(m.tn * magnitude(ray.dx) >= 0) by (nonlinear_arith)
                requires
                    m.tn >= 0,
                    magnitude(ray.dx) >= 0,
            ;
            assert(m.nx >= 0) by (nonlinear_arith)
                requires
                    0 <= m.nx * m.td,
                    m.td > 0,
            ;
        }
        if ray.dy != 0 {
            assert(m.tn * magnitude(ray.dy) >= 0) by (nonlinear_arith)
                requires
                    m.tn >= 0,
                    magnitude(ray.dy) >= 0,
            ;
            assert(m.ny >= 0) by (nonlinear_arith)
                requires
                    0 <= m.ny * m.td,
                    m.td > 0,
            ;
        }
        if ray.dz != 0 {
            assert(m.tn * magnitude(ray.dz) >= 0) by (nonlinear_arith)
                requires
                    m.tn >= 0,
                    magnitude(ray.dz) >= 0,
            ;
            assert(m.nz >= 0) by (nonlinear_arith)
                requires
                    0 <= m.nz * m.td,
                    m.td > 0,
            ;
        }
    }
    lemma_next_axis_first(ray, m);
    assert(m.tn * d <= n * m.td);
    assert((n + 65536) * d >= n * d && (n + 65536 - 65536) * d == n * d) by (nonlinear_arith)
        requires
            d > 0,
    ;
    if axis == 0 {
        lemma_other_axis_sound(ray.py, ray.dy, m.iy, m.ny, m.tn, m.td, n, d);
        lemma_other_axis_sound(ray.pz, ray.dz, m.iz, m.nz, m.tn, m.td, n, d);
    } else if axis == 1 {
        lemma_other_axis_sound(ray.px, ray.dx, m.ix, m.nx, m.tn, m.td, n, d);
        lemma_other_axis_sound(ray.pz, ray.dz, m.iz, m.nz, m.tn, m.td, n, d);
    } else {
        lemma_other_axis_sound(ray.px, ray.dx, m.ix, m.nx, m.tn, m.td, n, d);
        lemma_other_axis_sound(ray.py, ray.dy, m.iy, m.ny, m.tn, m.td, n, d);
    }
}

/// Whether the point at offset `q` from the origin `p` along an axis lies in
/// cell `i`, and on the face of the cell that the normal component `normal`
/// names, if that is not zero.
pub open spec fn on_cell(p: int, q: int, i: int, normal: int) -> bool {
    &&& i * 65536 <= p + q <= (i + 1) * 65536
    &&& normal < 0 ==> p + q == i * 65536
    &&& normal > 0 ==> p + q == (i + 1) * 65536
}

/// Along a sound axis the point of the ray at the walk's parameter, rounded
/// down to a whole unit, lies in the walk's cell; and on the face of entry
/// if the walk has just crossed along this axis.
proof fn lemma_axis_on_cell(p: int, d: int, i: int, n: int, tn: int, td: int, entered: bool)
    requires
        axis_sound(p, d, i, n, tn, td),
        td > 0,
        tn >= 0,
        entered ==> axis_entered(d, n, tn, td),
    ensures
        on_cell(
            p,
            (tn * d) / td,
            i,
            if entered {
                -toward(d)
            } else {
                0
            },
        ),
{
    let q = (tn * d) / td;
    vstd::arithmetic::div_mod::lemma_fundamental_div_mod(tn * d, td);
    vstd::arithmetic::div_mod::lemma_mod_bound(tn * d, td);
    let r = (tn * d) % td;
    if d > 0 {
        assert(tn * d == tn * magnitude(d));
        // (n - 65536) * td <= td * q + r <= n * td
        assert(q <= n) by (nonlinear_arith)
            requires
                td * q + r <= n * td,
                0 <= r,
                td > 0,
        ;
        assert(n - 65536 <= q) by (nonlinear_arith)
            requires
                (n - 65536) * td <= td * q + r,
                r < td,
                td > 0,
        ;
        if entered {
            assert(q == n - 65536) by (nonlinear_arith)
                requires
                    td * q + r == (n - 65536) * td,
                    0 <= r < td,
                    td > 0,
            ;
        }
    } else if d < 0 {
        assert(tn * d == -(tn * magnitude(d))) by (nonlinear_arith)
            requires
                magnitude(d) == -d,
        ;
        // -n * td <= td * q + r <= -(n - 65536) * td
        assert(-n <= q) by (nonlinear_arith)
            requires
                -(n * td) <= td * q + r,
                r < td,
                td > 0,
        ;
        assert(q <= 65536 - n) by (nonlinear_arith)
            requires
                td * q + r <= -((n - 65536) * td),
                0 <= r,
                td > 0,
        ;
        if entered {
            assert(q == 65536 - n) by (nonlinear_arith)
                requires
                    td * q + r == -((n - 65536) * td),
                    0 <= r < td,
                    td > 0,
            ;
        }
    } else {
        assert(tn * d == 0) by (nonlinear_arith)
            requires
                d == 0,
        ;
    }
}

/// Whether a hit is sound: its cell holds its voxel, which is not air; its
/// end point lies in the closed box of the cell; and if the ray came
/// through a face, the end point lies on that face, whose outward normal has
/// a single component of +1 or -1.
pub open spec fn hit_sound(world: WorldView, hit: RayHit) -> bool {
    &&& world.block_at(hit.cell.x as int, hit.cell.y as int, hit.cell.z as int) == Some(
        hit.voxel.id,
    )
    &&& hit.voxel.id != 0
    &&& on_cell(hit.end.x as int, 0, hit.cell.x as int, hit.normal.x as int)
    &&& on_cell(hit.end.y as int, 0, hit.cell.y as int, hit.normal.y as int)
    &&& on_cell(hit.end.z as int, 0, hit.cell.z as int, hit.normal.z as int)
    &&& -1 <= hit.normal.x <= 1
    &&& -1 <= hit.normal.y <= 1
    &&& -1 <= hit.normal.z <= 1
    &&& (hit.normal.x == 0 && hit.normal.y == 0) || (hit.normal.x == 0 && hit.normal.z == 0) || (
    hit.normal.y == 0 && hit.normal.z == 0)
}

/// A hit of a sound walk is sound.
proof fn lemma_hit_sound(world: WorldView, ray: Ray, m: March, id: u8)
    requires
        world.wf(),
        march_sound(ray, m),
        world.block_at(m.ix, m.iy, m.iz) == Some(id),
        id != 0,
    ensures
        hit_sound(world, hit_of(ray, m, id)),
{
    world.lemma_slot(m.ix, m.iy, m.iz);
    lemma_axis_on_cell(ray.px, ray.dx, m.ix, m.nx, m.tn, m.td, m.stepped == 0);
    lemma_axis_on_cell(ray.py, ray.dy, m.iy, m.ny, m.tn, m.td, m.stepped == 1);
    lemma_axis_on_cell(ray.pz, ray.dz, m.iz, m.nz, m.tn, m.td, m.stepped == 2);
}

/// Every walk from a sound state stays sound, and if it ends with a hit the
/// hit is sound.
proof fn lemma_march_sound(world: WorldView, ray: Ray, m: March, n: nat)
    requires
        world.wf(),
        march_sound(ray, m),
    ensures
        match march(world, ray, m, n) {
            Trace::Going(at) => march_sound(ray, at),
            Trace::Hit(hit) => hit_sound(world, hit),
            Trace::Miss => true,
        },
    decreases n,
{
    if n > 0 {
        match ray_step(world, ray, m) {
            Trace::Going(next) => {
                lemma_step_sound(world, ray, m);
                lemma_march_sound(world, ray, next, (n - 1) as nat);
            },
            Trace::Hit(hit) => {
                lemma_hit_sound(world, ray, m, world.block_at(m.ix, m.iy, m.iz)->0);
            },
            Trace::Miss => {},
        }
    }
}

/// What a ray cast reports is on the ray and on the voxel: the reported
/// cell holds the reported voxel, which is not air; the reported end point
/// lies in the closed box of that cell, on the face that the reported normal
/// names.
pub proof fn lemma_ray_hit_on_cell(world: WorldView, a: Fixed3, dir: Fixed3, max_dist: i64)
    requires
        world.wf(),
    ensures
        ray_result(world, ray_of(a, dir, max_dist)) is Some ==> hit_sound(
            world,
            ray_result(world, ray_of(a, dir, max_dist))->0,
        ),
{
    let ray = ray_of(a, dir, max_dist);
    if ray.max >= 0 {
        let n = choose|n: nat| !(march(world, ray, start(ray), n) is Going);
        lemma_start_sound(ray);
        lemma_march_sound(world, ray, start(ray), n);
    }
}

} // verus!
