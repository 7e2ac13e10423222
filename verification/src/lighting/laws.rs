//! Laws of light propagation, proved of the solver model.

use vstd::prelude::*;
use crate::lighting::light_solver::{LightEntry, SolverState, add_visit, add_visits, idle, neighbor,
    popped_add, popped_rem, queues_wf, rem_visit, rem_visits, run, settled, solved, step, unlit,
    lemma_solved_unique};
use crate::lighting::lightmap::{is_channel, is_level};
use crate::voxels::BlockRegistry;
use crate::voxels::world::WorldView;

verus! {

/// Whether the property `inv` of solver states survives every step, as
/// witnessed by `mid_rem` and `mid_add`: properties of a state in the middle
/// of a step, of the entry being applied and of the number of neighbours
/// already visited.
pub open spec fn step_invariant(
    inv: spec_fn(SolverState) -> bool,
    mid_rem: spec_fn(SolverState, LightEntry, int) -> bool,
    mid_add: spec_fn(SolverState, LightEntry, int) -> bool,
    blocks: BlockRegistry,
    channel: int,
) -> bool {
    &&& forall|u: SolverState| #[trigger]
        inv(u) && u.rem.len() > 0 ==> mid_rem(popped_rem(u), u.rem[0], 0)
    &&& forall|u: SolverState, e: LightEntry, i: int|
        0 <= i < 6 && #[trigger] mid_rem(u, e, i) ==> mid_rem(rem_visit(u, channel, e, i), e, i + 1)
    &&& forall|u: SolverState, e: LightEntry| #[trigger] mid_rem(u, e, 6) ==> inv(u)
    &&& forall|u: SolverState| #[trigger]
        inv(u) && u.rem.len() == 0 && u.add.len() > 0 && u.add[0].light <= 1 ==> inv(popped_add(u))
    &&& forall|u: SolverState| #[trigger]
        inv(u) && u.rem.len() == 0 && u.add.len() > 0 && u.add[0].light > 1 ==> mid_add(
            popped_add(u),
            u.add[0],
            0,
        )
    &&& forall|u: SolverState, e: LightEntry, i: int|
        0 <= i < 6 && #[trigger] mid_add(u, e, i) ==> mid_add(
            add_visit(u, blocks, channel, e, i),
            e,
            i + 1,
        )
    &&& forall|u: SolverState, e: LightEntry| #[trigger] mid_add(u, e, 6) ==> inv(u)
}

/// A property that survives every visit survives the visits of a removal
/// entry.
proof fn lemma_rem_visits_keep(
    inv: spec_fn(SolverState) -> bool,
    mid_rem: spec_fn(SolverState, LightEntry, int) -> bool,
    mid_add: spec_fn(SolverState, LightEntry, int) -> bool,
    blocks: BlockRegistry,
    channel: int,
    u: SolverState,
    e: LightEntry,
    n: int,
)
    requires
        step_invariant(inv, mid_rem, mid_add, blocks, channel),
        mid_rem(u, e, 0),
        0 <= n <= 6,
    ensures
        mid_rem(rem_visits(u, channel, e, n), e, n),
    decreases n,
{
    if n > 0 {
        lemma_rem_visits_keep(inv, mid_rem, mid_add, blocks, channel, u, e, n - 1);
    }
}

/// A property that survives every visit survives the visits of an addition
/// entry.
proof fn lemma_add_visits_keep(
    inv: spec_fn(SolverState) -> bool,
    mid_rem: spec_fn(SolverState, LightEntry, int) -> bool,
    mid_add: spec_fn(SolverState, LightEntry, int) -> bool,
    blocks: BlockRegistry,
    channel: int,
    u: SolverState,
    e: LightEntry,
    n: int,
)
    requires
        step_invariant(inv, mid_rem, mid_add, blocks, channel),
        mid_add(u, e, 0),
        0 <= n <= 6,
    ensures
        mid_add(add_visits(u, blocks, channel, e, n), e, n),
    decreases n,
{
    if n > 0 {
        lemma_add_visits_keep(inv, mid_rem, mid_add, blocks, channel, u, e, n - 1);
    }
}

/// A step invariant holds after one step.
pub proof fn lemma_step_keeps(
    inv: spec_fn(SolverState) -> bool,
    mid_rem: spec_fn(SolverState, LightEntry, int) -> bool,
    mid_add: spec_fn(SolverState, LightEntry, int) -> bool,
    blocks: BlockRegistry,
    channel: int,
    s: SolverState,
)
    requires
        step_invariant(inv, mid_rem, mid_add, blocks, channel),
        inv(s),
    ensures
        inv(step(s, blocks, channel)),
{
    if s.rem.len() > 0 {
        lemma_rem_visits_keep(inv, mid_rem, mid_add, blocks, channel, popped_rem(s), s.rem[0], 6);
    } else if s.add.len() > 0 {
        if s.add[0].light > 1 {
            lemma_add_visits_keep(
                inv,
                mid_rem,
                mid_add,
                blocks,
                channel,
                popped_add(s),
                s.add[0],
                6,
            );
        }
    }
}

/// A step invariant holds after any number of steps.
pub proof fn lemma_run_keeps(
    inv: spec_fn(SolverState) -> bool,
    mid_rem: spec_fn(SolverState, LightEntry, int) -> bool,
    mid_add: spec_fn(SolverState, LightEntry, int) -> bool,
    blocks: BlockRegistry,
    channel: int,
    s: SolverState,
    n: nat,
)
    requires
        step_invariant(inv, mid_rem, mid_add, blocks, channel),
        inv(s),
    ensures
        inv(run(s, blocks, channel, n)),
    decreases n,
{
    if n > 0 {
        lemma_step_keeps(inv, mid_rem, mid_add, blocks, channel, s);
        lemma_run_keeps(
            inv,
            mid_rem,
            mid_add,
            blocks,
            channel,
            step(s, blocks, channel),
            (n - 1) as nat,
        );
    }
}

/// A step invariant holds of the solved state.
pub proof fn lemma_solved_keeps(
    inv: spec_fn(SolverState) -> bool,
    mid_rem: spec_fn(SolverState, LightEntry, int) -> bool,
    mid_add: spec_fn(SolverState, LightEntry, int) -> bool,
    blocks: BlockRegistry,
    channel: int,
    s: SolverState,
)
    requires
        step_invariant(inv, mid_rem, mid_add, blocks, channel),
        inv(s),
    ensures
        inv(solved(s, blocks, channel)),
{
    let n = choose|n: nat| settled(run(s, blocks, channel, n));
    lemma_run_keeps(inv, mid_rem, mid_add, blocks, channel, s, n);
}

/// Whether `world` is well formed and agrees with `origin` in its extent,
/// its block ids and every channel but `channel`.
pub open spec fn framed(world: WorldView, origin: WorldView, channel: int) -> bool {
    &&& world.wf()
    &&& world.same_blocks(origin)
    &&& forall|x: int, y: int, z: int, c: int|
        is_channel(c) && c != channel ==> #[trigger] world.level_at(x, y, z, c)
            == origin.level_at(x, y, z, c)
}

/// Storing a level in `channel` keeps a world framed.
pub proof fn lemma_framed_with_level(
    world: WorldView,
    origin: WorldView,
    channel: int,
    x: int,
    y: int,
    z: int,
    level: int,
)
    requires
        framed(world, origin, channel),
        is_channel(channel),
        is_level(level),
    ensures
        framed(world.with_level(x, y, z, channel, level), origin, channel),
{
    world.lemma_with_level(x, y, z, channel, level);
    let after = world.with_level(x, y, z, channel, level);
    assert forall|qx: int, qy: int, qz: int| #[trigger]
        after.block_at(qx, qy, qz) == origin.block_at(qx, qy, qz) by {
        assert(after.block_at(qx, qy, qz) == world.block_at(qx, qy, qz));
    }
}

/// Base property of solver states: the world is framed and the queues hold
/// light levels.
pub open spec fn based(u: SolverState, origin: WorldView, channel: int) -> bool {
    framed(u.world, origin, channel) && queues_wf(u)
}

/// A removal visit keeps the base property.
pub proof fn lemma_rem_visit_based(u: SolverState, origin: WorldView, channel: int, e: LightEntry,
    i: int)
    requires
        based(u, origin, channel),
        is_channel(channel),
        0 <= i < 6,
    ensures
        based(rem_visit(u, channel, e, i), origin, channel),
{
    let (x, y, z) = neighbor(e.x as int, e.y as int, e.z as int, i);
    lemma_framed_with_level(u.world, origin, channel, x, y, z, 0);
    lemma_level_range(u.world, x, y, z, channel);
}

/// An addition visit keeps the base property.
pub proof fn lemma_add_visit_based(
    u: SolverState,
    origin: WorldView,
    blocks: BlockRegistry,
    channel: int,
    e: LightEntry,
    i: int,
)
    requires
        based(u, origin, channel),
        is_channel(channel),
        e.light <= 15,
        0 <= i < 6,
    ensures
        based(add_visit(u, blocks, channel, e, i), origin, channel),
{
    let (x, y, z) = neighbor(e.x as int, e.y as int, e.z as int, i);
    lemma_level_range(u.world, x, y, z, channel);
    if e.light >= 1 {
        lemma_framed_with_level(u.world, origin, channel, x, y, z, e.light - 1);
    }
}

/// Every stored level is a light level.
pub proof fn lemma_level_range(world: WorldView, x: int, y: int, z: int, channel: int)
    requires
        is_channel(channel),
    ensures
        is_level(world.level_at(x, y, z, channel)),
{
}

/// Propagation in one channel keeps the world well formed and leaves the
/// extent, the block ids and the other three channels as they were; the
/// queues keep holding light levels.
pub proof fn lemma_solved_framed(s: SolverState, blocks: BlockRegistry, channel: int)
    requires
        s.world.wf(),
        queues_wf(s),
        is_channel(channel),
    ensures
        based(solved(s, blocks, channel), s.world, channel),
{
    let origin = s.world;
    let inv = |u: SolverState| based(u, origin, channel);
    let mid_rem = |u: SolverState, e: LightEntry, i: int| based(u, origin, channel);
    let mid_add = |u: SolverState, e: LightEntry, i: int| based(u, origin, channel) && e.light
        <= 15;
    assert(step_invariant(inv, mid_rem, mid_add, blocks, channel)) by {
        assert forall|u: SolverState, e: LightEntry, i: int| 0 <= i < 6 && #[trigger] mid_rem(
            u,
            e,
            i,
        ) implies mid_rem(rem_visit(u, channel, e, i), e, i + 1) by {
            lemma_rem_visit_based(u, origin, channel, e, i);
        }
        assert forall|u: SolverState, e: LightEntry, i: int| 0 <= i < 6 && #[trigger] mid_add(
            u,
            e,
            i,
        ) implies mid_add(add_visit(u, blocks, channel, e, i), e, i + 1) by {
            lemma_add_visit_based(u, origin, blocks, channel, e, i);
        }
    }
    lemma_solved_keeps(inv, mid_rem, mid_add, blocks, channel, s);
}

/// Darkening a voxel that is already dark, and propagating, changes
/// nothing: the queues stay empty, no level changes and no chunk is marked.
pub proof fn lemma_remove_dark_is_noop(
    world: WorldView,
    blocks: BlockRegistry,
    channel: int,
    x: int,
    y: int,
    z: int,
)
    requires
        world.level_at(x, y, z, channel) == 0,
    ensures
        unlit(idle(world), channel, x, y, z) == idle(world),
        solved(unlit(idle(world), channel, x, y, z), blocks, channel) == idle(world),
{
    lemma_solved_idle(world, blocks, channel);
}

/// Propagation from empty queues changes nothing.
pub proof fn lemma_solved_idle(world: WorldView, blocks: BlockRegistry, channel: int)
    ensures
        solved(idle(world), blocks, channel) == idle(world),
{
    assert(run(idle(world), blocks, channel, 0) == idle(world));
    lemma_solved_unique(idle(world), blocks, channel, 0);
}

} // verus!

verus! {

/// Progress measure of the removal phase: it falls with every step that
/// takes a removal entry.
pub open spec fn rem_measure(s: SolverState, channel: int) -> int {
    2 * s.world.total_level(channel) + s.rem.len()
}

/// Progress measure of the addition phase: it falls with every step that
/// takes an addition entry.
pub open spec fn add_measure(s: SolverState, channel: int) -> int {
    2 * (s.world.level_capacity() - s.world.total_level(channel)) + s.add.len()
}

/// The visits of a removal entry keep the base property and do not raise
/// the removal measure.
proof fn lemma_rem_visits_measure(u: SolverState, channel: int, e: LightEntry, n: int)
    requires
        based(u, u.world, channel),
        is_channel(channel),
        0 <= n <= 6,
    ensures
        based(rem_visits(u, channel, e, n), u.world, channel),
        rem_measure(rem_visits(u, channel, e, n), channel) <= rem_measure(u, channel),
    decreases n,
{
    if n > 0 {
        lemma_rem_visits_measure(u, channel, e, n - 1);
        let before = rem_visits(u, channel, e, n - 1);
        let (x, y, z) = neighbor(e.x as int, e.y as int, e.z as int, n - 1);
        lemma_rem_visit_based(before, u.world, channel, e, n - 1);
        before.world.lemma_total_with_level(x, y, z, channel, 0);
    }
}

/// The visits of an addition entry keep the base property, leave the
/// removal queue alone and do not raise the addition measure.
proof fn lemma_add_visits_measure(
    u: SolverState,
    blocks: BlockRegistry,
    channel: int,
    e: LightEntry,
    n: int,
)
    requires
        based(u, u.world, channel),
        is_channel(channel),
        e.light <= 15,
        0 <= n <= 6,
    ensures
        based(add_visits(u, blocks, channel, e, n), u.world, channel),
        add_visits(u, blocks, channel, e, n).rem == u.rem,
        add_measure(add_visits(u, blocks, channel, e, n), channel) <= add_measure(u, channel),
    decreases n,
{
    if n > 0 {
        lemma_add_visits_measure(u, blocks, channel, e, n - 1);
        let before = add_visits(u, blocks, channel, e, n - 1);
        let (x, y, z) = neighbor(e.x as int, e.y as int, e.z as int, n - 1);
        lemma_add_visit_based(before, u.world, blocks, channel, e, n - 1);
        if e.light >= 1 {
            before.world.lemma_total_with_level(x, y, z, channel, e.light - 1);
        }
    }
}

/// A world framed by another is framed by itself.
pub proof fn lemma_framed_self(world: WorldView, channel: int)
    requires
        world.wf(),
    ensures
        framed(world, world, channel),
{
}

/// Propagation ends: after some number of steps both queues are empty.
pub proof fn lemma_settles(s: SolverState, blocks: BlockRegistry, channel: int)
    requires
        s.world.wf(),
        queues_wf(s),
        is_channel(channel),
    ensures
        exists|n: nat| settled(run(s, blocks, channel, n)),
    decreases
            (if s.rem.len() > 0 {
                1int
            } else {
                0int
            }),
            (if s.rem.len() > 0 {
                rem_measure(s, channel)
            } else {
                add_measure(s, channel)
            }),
{
    s.world.lemma_total_bounds(channel);
    if settled(s) {
        assert(settled(run(s, blocks, channel, 0)));
    } else {
        let next = step(s, blocks, channel);
        if s.rem.len() > 0 {
            lemma_rem_visits_measure(popped_rem(s), channel, s.rem[0], 6);
        } else if s.add[0].light > 1 {
            lemma_add_visits_measure(popped_add(s), blocks, channel, s.add[0], 6);
        }
        next.world.lemma_total_bounds(channel);
        lemma_settles(next, blocks, channel);
        let n = choose|n: nat| settled(run(next, blocks, channel, n));
        assert(run(s, blocks, channel, n + 1) == run(next, blocks, channel, n));
    }
}

/// The solved state has empty queues.
pub proof fn lemma_solved_settled(s: SolverState, blocks: BlockRegistry, channel: int)
    requires
        s.world.wf(),
        queues_wf(s),
        is_channel(channel),
    ensures
        settled(solved(s, blocks, channel)),
{
    lemma_settles(s, blocks, channel);
}

/// Whether neighbour number `i` of (x, y, z), if it lies in the world and
/// lets light pass, is at most one level darker than (x, y, z). Nothing is
/// asked of the neighbour at `hole`, if there is one.
pub open spec fn gentle_at(
    world: WorldView,
    blocks: BlockRegistry,
    channel: int,
    hole: Option<(int, int, int)>,
    x: int,
    y: int,
    z: int,
    i: int,
) -> bool {
    let (nx, ny, nz) = neighbor(x, y, z, i);
    world.in_world(nx, ny, nz) && blocks.passes_light(world.block_at(nx, ny, nz)->0) && hole
        != Some((nx, ny, nz)) ==> world.level_at(nx, ny, nz, channel) + 1 >= world.level_at(
        x,
        y,
        z,
        channel,
    )
}

/// Whether the first `n` neighbours of (x, y, z) are gentle.
pub open spec fn gentle_upto(
    world: WorldView,
    blocks: BlockRegistry,
    channel: int,
    hole: Option<(int, int, int)>,
    x: int,
    y: int,
    z: int,
    n: int,
) -> bool {
    forall|i: int| 0 <= i < n ==> gentle_at(world, blocks, channel, hole, x, y, z, i)
}

/// Whether light falls off by at most one level per step into every voxel
/// that lets light pass, except into the voxel at `hole`, if there is one.
pub open spec fn attenuated_but(
    world: WorldView,
    blocks: BlockRegistry,
    channel: int,
    hole: Option<(int, int, int)>,
) -> bool {
    forall|x: int, y: int, z: int| #[trigger] gentle_upto(world, blocks, channel, hole, x, y, z, 6)
}

/// Whether light falls off by at most one level per step into every voxel
/// that lets light pass: no voxel is more than one level brighter than a
/// light-passing neighbour.
pub open spec fn attenuated(world: WorldView, blocks: BlockRegistry, channel: int) -> bool {
    attenuated_but(world, blocks, channel, None)
}

/// Whether the addition queue holds (x, y, z) with the level stored there.
pub open spec fn queued(u: SolverState, channel: int, x: int, y: int, z: int) -> bool {
    exists|k: int|
        0 <= k < u.add.len() && (#[trigger] u.add[k]).x == x && u.add[k].y == y && u.add[k].z == z
            && u.add[k].light == u.world.level_at(x, y, z, channel)
}

/// Whether every voxel either is gentle towards all its neighbours or waits
/// in the addition queue with its current level.
pub open spec fn gentle_or_queued(
    u: SolverState,
    blocks: BlockRegistry,
    channel: int,
    hole: Option<(int, int, int)>,
) -> bool {
    forall|x: int, y: int, z: int| #[trigger]
        gentle_upto(u.world, blocks, channel, hole, x, y, z, 6) || queued(u, channel, x, y, z)
}

/// The property `gentle_or_queued` in the middle of the step that applies
/// the addition entry `e`, after `i` visits: the voxel of `e`, if it still
/// has the level of `e`, is gentle towards the neighbours already visited.
pub open spec fn gentle_midway(
    u: SolverState,
    blocks: BlockRegistry,
    channel: int,
    hole: Option<(int, int, int)>,
    e: LightEntry,
    i: int,
) -> bool {
    forall|x: int, y: int, z: int| #[trigger]
        gentle_upto(u.world, blocks, channel, hole, x, y, z, 6) || queued(u, channel, x, y, z) || (x
            == e.x && y == e.y && z == e.z && u.world.level_at(x, y, z, channel) == e.light
            && gentle_upto(u.world, blocks, channel, hole, x, y, z, i))
}

/// Whether an addition visit changes the world: neighbour number `i` of
/// the entry lies in the world, lets light pass and is at least two levels
/// darker than the entry.
pub open spec fn add_visit_lights(
    u: SolverState,
    blocks: BlockRegistry,
    channel: int,
    e: LightEntry,
    i: int,
) -> bool {
    let (nx, ny, nz) = neighbor(e.x as int, e.y as int, e.z as int, i);
    u.world.in_world(nx, ny, nz) && blocks.passes_light(u.world.block_at(nx, ny, nz)->0)
        && u.world.level_at(nx, ny, nz, channel) + 2 <= e.light
}

/// What an addition visit does, read through positions: block ids stay; the
/// level of the visited neighbour rises to the entry's level less one if the
/// visit lights it, and no other level changes; the neighbour is queued with
/// its new level behind the entries already waiting.
pub open spec fn add_visit_effect(
    u: SolverState,
    after: SolverState,
    blocks: BlockRegistry,
    channel: int,
    e: LightEntry,
    i: int,
) -> bool {
    let (nx, ny, nz) = neighbor(e.x as int, e.y as int, e.z as int, i);
    let lights = add_visit_lights(u, blocks, channel, e, i);
    &&& after.world.same_blocks(u.world)
    &&& after.rem == u.rem
    &&& forall|x: int, y: int, z: int| #[trigger]
        after.world.level_at(x, y, z, channel) == if lights && x == nx && y == ny && z == nz {
            e.light - 1
        } else {
            u.world.level_at(x, y, z, channel)
        }
    &&& forall|x: int, y: int, z: int| #[trigger]
        after.world.in_world(x, y, z) == u.world.in_world(x, y, z)
    &&& after.add.len() == u.add.len() + if lights {
        1int
    } else {
        0int
    }
    &&& forall|k: int| 0 <= k < u.add.len() ==> #[trigger] after.add[k] == u.add[k]
    &&& lights ==> {
        let last = after.add[u.add.len() as int];
        last.x == nx && last.y == ny && last.z == nz && last.light == e.light - 1
    }
}

/// An addition visit has the effect `add_visit_effect`.
pub proof fn lemma_add_visit_effect(
    u: SolverState,
    blocks: BlockRegistry,
    channel: int,
    e: LightEntry,
    i: int,
)
    requires
        u.world.wf(),
        is_channel(channel),
        1 <= e.light <= 15,
        0 <= i < 6,
    ensures
        add_visit_effect(u, add_visit(u, blocks, channel, e, i), blocks, channel, e, i),
{
    let (nx, ny, nz) = neighbor(e.x as int, e.y as int, e.z as int, i);
    u.world.lemma_with_level(nx, ny, nz, channel, e.light - 1);
    if u.world.in_world(nx, ny, nz) {
        u.world.lemma_slot(nx, ny, nz);
    }
}

/// Raising the level of other voxels keeps a voxel gentle towards a
/// neighbour.
proof fn lemma_gentle_kept(
    before: WorldView,
    after: WorldView,
    blocks: BlockRegistry,
    channel: int,
    hole: Option<(int, int, int)>,
    x: int,
    y: int,
    z: int,
    j: int,
)
    requires
        after.same_blocks(before),
        forall|qx: int, qy: int, qz: int| #[trigger]
            after.in_world(qx, qy, qz) == before.in_world(qx, qy, qz),
        forall|qx: int, qy: int, qz: int| #[trigger]
            after.level_at(qx, qy, qz, channel) >= before.level_at(qx, qy, qz, channel),
        after.level_at(x, y, z, channel) == before.level_at(x, y, z, channel),
        gentle_at(before, blocks, channel, hole, x, y, z, j),
    ensures
        gentle_at(after, blocks, channel, hole, x, y, z, j),
{
    let (mx, my, mz) = neighbor(x, y, z, j);
    assert(after.block_at(mx, my, mz) == before.block_at(mx, my, mz));
    assert(after.in_world(mx, my, mz) == before.in_world(mx, my, mz));
    assert(after.level_at(mx, my, mz, channel) >= before.level_at(mx, my, mz, channel));
}

/// What `gentle_midway` says of one voxel.
pub open spec fn gentle_midway_at(
    u: SolverState,
    blocks: BlockRegistry,
    channel: int,
    hole: Option<(int, int, int)>,
    e: LightEntry,
    i: int,
    x: int,
    y: int,
    z: int,
) -> bool {
    gentle_upto(u.world, blocks, channel, hole, x, y, z, 6) || queued(u, channel, x, y, z) || (x
        == e.x
        && y == e.y && z == e.z && u.world.level_at(x, y, z, channel) == e.light && gentle_upto(
        u.world,
        blocks,
        channel,
        hole,
        x,
        y,
        z,
        i,
    ))
}

/// An addition visit keeps what `gentle_midway` says of one voxel and moves
/// it one neighbour on.
proof fn lemma_add_visit_gentle_at(
    u: SolverState,
    after: SolverState,
    blocks: BlockRegistry,
    channel: int,
    hole: Option<(int, int, int)>,
    e: LightEntry,
    i: int,
    x: int,
    y: int,
    z: int,
)
    requires
        add_visit_effect(u, after, blocks, channel, e, i),
        2 <= e.light <= 15,
        0 <= i < 6,
        gentle_midway_at(u, blocks, channel, hole, e, i, x, y, z),
    ensures
        gentle_midway_at(after, blocks, channel, hole, e, i + 1, x, y, z),
{
    let (nx, ny, nz) = neighbor(e.x as int, e.y as int, e.z as int, i);
    let lights = add_visit_lights(u, blocks, channel, e, i);
    assert(after.world.level_at(x, y, z, channel) == if lights && x == nx && y == ny && z == nz {
        e.light - 1
    } else {
        u.world.level_at(x, y, z, channel)
    });
    assert forall|qx: int, qy: int, qz: int| #[trigger]
        after.world.level_at(qx, qy, qz, channel) >= u.world.level_at(qx, qy, qz, channel) by {
        assert(after.world.level_at(qx, qy, qz, channel) == if lights && qx == nx && qy == ny && qz
            == nz {
            e.light - 1
        } else {
            u.world.level_at(qx, qy, qz, channel)
        });
    }
    if lights && x == nx && y == ny && z == nz {
        let k = u.add.len() as int;
        assert(after.add[k].x == x && after.add[k].y == y && after.add[k].z == z);
        assert(queued(after, channel, x, y, z));
    } else if queued(u, channel, x, y, z) {
        let k = choose|k: int|
            0 <= k < u.add.len() && (#[trigger] u.add[k]).x == x && u.add[k].y == y && u.add[k].z
                == z && u.add[k].light == u.world.level_at(x, y, z, channel);
        assert(after.add[k] == u.add[k]);
        assert(queued(after, channel, x, y, z));
    } else if gentle_upto(u.world, blocks, channel, hole, x, y, z, 6) {
        assert forall|j: int| 0 <= j < 6 implies gentle_at(
            after.world,
            blocks,
            channel,
            hole,
            x,
            y,
            z,
            j,
        ) by {
            lemma_gentle_kept(u.world, after.world, blocks, channel, hole, x, y, z, j);
        }
    } else {
        assert forall|j: int| 0 <= j < i + 1 implies gentle_at(
            after.world,
            blocks,
            channel,
            hole,
            x,
            y,
            z,
            j,
        ) by {
            if j < i {
                lemma_gentle_kept(u.world, after.world, blocks, channel, hole, x, y, z, j);
            } else {
                assert(after.world.block_at(nx, ny, nz) == u.world.block_at(nx, ny, nz));
                assert(after.world.in_world(nx, ny, nz) == u.world.in_world(nx, ny, nz));
                assert(after.world.level_at(nx, ny, nz, channel) == if lights {
                    e.light - 1
                } else {
                    u.world.level_at(nx, ny, nz, channel)
                });
            }
        }
    }
}

/// An addition visit keeps `gentle_midway` and moves it one neighbour on.
pub proof fn lemma_add_visit_gentle(
    u: SolverState,
    blocks: BlockRegistry,
    channel: int,
    hole: Option<(int, int, int)>,
    e: LightEntry,
    i: int,
)
    requires
        u.world.wf(),
        is_channel(channel),
        2 <= e.light <= 15,
        0 <= i < 6,
        gentle_midway(u, blocks, channel, hole, e, i),
    ensures
        gentle_midway(add_visit(u, blocks, channel, e, i), blocks, channel, hole, e, i + 1),
{
    let after = add_visit(u, blocks, channel, e, i);
    lemma_add_visit_effect(u, blocks, channel, e, i);
    assert forall|x: int, y: int, z: int| #[trigger]
        gentle_midway_at(after, blocks, channel, hole, e, i + 1, x, y, z) by {
        assert(gentle_upto(u.world, blocks, channel, hole, x, y, z, 6) || queued(u, channel, x, y,
            z) || (
        x == e.x && y == e.y && z == e.z && u.world.level_at(x, y, z, channel) == e.light
            && gentle_upto(u.world, blocks, channel, hole, x, y, z, i)));
        lemma_add_visit_gentle_at(u, after, blocks, channel, hole, e, i, x, y, z);
    }
    assert forall|x: int, y: int, z: int| #[trigger]
        gentle_upto(after.world, blocks, channel, hole, x, y, z, 6) || queued(after, channel, x,
            y, z)
            || (x == e.x && y == e.y && z == e.z && after.world.level_at(x, y, z, channel)
            == e.light && gentle_upto(after.world, blocks, channel, hole, x, y, z, i + 1)) by {
        assert(gentle_midway_at(after, blocks, channel, hole, e, i + 1, x, y, z));
    }
}

/// Propagation of additions leaves an attenuated world. If no removal is
/// queued and every voxel either is gentle towards its neighbours or waits
/// in the addition queue with its current level, then in the solved world
/// no voxel is more than one level brighter than a light-passing neighbour.
/// Where a voxel is exempt before, it is exempt after.
pub proof fn lemma_solved_attenuated_but(
    s: SolverState,
    blocks: BlockRegistry,
    channel: int,
    hole: Option<(int, int, int)>,
)
    requires
        s.world.wf(),
        queues_wf(s),
        is_channel(channel),
        s.rem.len() == 0,
        gentle_or_queued(s, blocks, channel, hole),
    ensures
        attenuated_but(solved(s, blocks, channel).world, blocks, channel, hole),
        based(solved(s, blocks, channel), s.world, channel),
{
    let origin = s.world;
    let inv = |u: SolverState|
        based(u, origin, channel) && u.rem.len() == 0 && gentle_or_queued(u, blocks, channel, hole);
    let mid_rem = |u: SolverState, e: LightEntry, i: int| false;
    let mid_add = |u: SolverState, e: LightEntry, i: int|
        based(u, origin, channel) && u.rem.len() == 0 && 2 <= e.light <= 15 && gentle_midway(
            u,
            blocks,
            channel,
            hole,
            e,
            i,
        );
    assert(step_invariant(inv, mid_rem, mid_add, blocks, channel)) by {
        assert forall|u: SolverState| #[trigger]
            inv(u) && u.rem.len() == 0 && u.add.len() > 0 && u.add[0].light <= 1 implies inv(
            popped_add(u),
        ) by {
            lemma_pop_gentle(u, blocks, channel, hole);
        }
        assert forall|u: SolverState| #[trigger]
            inv(u) && u.rem.len() == 0 && u.add.len() > 0 && u.add[0].light > 1 implies mid_add(
            popped_add(u),
            u.add[0],
            0,
        ) by {
            lemma_pop_gentle(u, blocks, channel, hole);
        }
        assert forall|u: SolverState, e: LightEntry, i: int| 0 <= i < 6 && #[trigger] mid_add(
            u,
            e,
            i,
        ) implies mid_add(add_visit(u, blocks, channel, e, i), e, i + 1) by {
            lemma_add_visit_based(u, origin, blocks, channel, e, i);
            lemma_add_visit_gentle(u, blocks, channel, hole, e, i);
        }
        assert forall|u: SolverState, e: LightEntry| #[trigger] mid_add(u, e, 6) implies inv(
            u,
        ) by {
            assert forall|x: int, y: int, z: int| #[trigger]
                gentle_upto(u.world, blocks, channel, hole, x, y, z, 6) || queued(u, channel, x,
                    y, z) by {
                assert(gentle_upto(u.world, blocks, channel, hole, x, y, z, 6) || queued(
                    u,
                    channel,
                    x,
                    y,
                    z,
                ) || (x == e.x && y == e.y && z == e.z && u.world.level_at(x, y, z, channel)
                    == e.light && gentle_upto(u.world, blocks, channel, hole, x, y, z, 6)));
            }
        }
    }
    lemma_framed_self(origin, channel);
    lemma_solved_keeps(inv, mid_rem, mid_add, blocks, channel, s);
    lemma_solved_settled(s, blocks, channel);
    let end = solved(s, blocks, channel);
    assert forall|x: int, y: int, z: int| #[trigger]
        gentle_upto(end.world, blocks, channel, hole, x, y, z, 6) by {
        assert(gentle_upto(end.world, blocks, channel, hole, x, y, z, 6) || queued(end, channel,
            x, y, z));
    }
}

/// Taking the oldest addition entry off the queue keeps the base property;
/// every voxel then is gentle, or still queued, or is the voxel of the entry
/// taken and has its level. An entry of level 1 or less leaves its voxel
/// gentle.
pub proof fn lemma_pop_gentle(
    u: SolverState,
    blocks: BlockRegistry,
    channel: int,
    hole: Option<(int, int, int)>,
)
    requires
        queues_wf(u),
        is_channel(channel),
        u.add.len() > 0,
        gentle_or_queued(u, blocks, channel, hole),
    ensures
        queues_wf(popped_add(u)),
        gentle_midway(popped_add(u), blocks, channel, hole, u.add[0], 0),
        u.add[0].light <= 15,
        u.add[0].light <= 1 ==> gentle_or_queued(popped_add(u), blocks, channel, hole),
{
    let rest = popped_add(u);
    let e = u.add[0];
    assert forall|k: int| 0 <= k < rest.add.len() implies 0 <= (#[trigger] rest.add[k]).light
        <= 15 by {
        assert(rest.add[k] == u.add[k + 1]);
    }
    assert forall|x: int, y: int, z: int|
        gentle_upto(rest.world, blocks, channel, hole, x, y, z, 6) || queued(rest, channel, x, y,
            z) || (x
            == e.x && y == e.y && z == e.z && rest.world.level_at(x, y, z, channel) == e.light) by {
        assert(gentle_upto(u.world, blocks, channel, hole, x, y, z, 6) || queued(u, channel, x, y,
            z));
        if queued(u, channel, x, y, z) {
            let k = choose|k: int|
                0 <= k < u.add.len() && (#[trigger] u.add[k]).x == x && u.add[k].y == y
                    && u.add[k].z == z && u.add[k].light == u.world.level_at(x, y, z, channel);
            if k > 0 {
                assert(rest.add[k - 1] == u.add[k]);
                assert(queued(rest, channel, x, y, z));
            }
        }
    }
    assert forall|x: int, y: int, z: int| #[trigger]
        gentle_upto(rest.world, blocks, channel, hole, x, y, z, 6) || queued(rest, channel, x, y,
            z) || (x
            == e.x && y == e.y && z == e.z && rest.world.level_at(x, y, z, channel) == e.light
            && gentle_upto(rest.world, blocks, channel, hole, x, y, z, 0)) by {
        assert(gentle_upto(rest.world, blocks, channel, hole, x, y, z, 6) || queued(
            rest,
            channel,
            x,
            y,
            z,
        ) || (x == e.x && y == e.y && z == e.z && rest.world.level_at(x, y, z, channel)
            == e.light));
    }
    if e.light <= 1 {
        assert forall|x: int, y: int, z: int| #[trigger]
            gentle_upto(rest.world, blocks, channel, hole, x, y, z, 6) || queued(
                rest,
                channel,
                x,
                y,
                z,
            ) by {
            assert(gentle_upto(rest.world, blocks, channel, hole, x, y, z, 6) || queued(
                rest,
                channel,
                x,
                y,
                z,
            ) || (x == e.x && y == e.y && z == e.z && rest.world.level_at(x, y, z, channel)
                == e.light));
            if x == e.x && y == e.y && z == e.z && rest.world.level_at(x, y, z, channel)
                == e.light {
                assert forall|j: int| 0 <= j < 6 implies gentle_at(
                    rest.world,
                    blocks,
                    channel,
                    hole,
                    x,
                    y,
                    z,
                    j,
                ) by {
                    let (mx, my, mz) = neighbor(x, y, z, j);
                    lemma_level_range(rest.world, mx, my, mz, channel);
                }
            }
        }
    }
}

} // verus!

verus! {

/// Propagation of additions leaves an attenuated world. If no removal is
/// queued and every voxel either is gentle towards its neighbours or waits
/// in the addition queue with its current level, then in the solved world
/// no voxel is more than one level brighter than a light-passing neighbour.
pub proof fn lemma_solved_attenuated(s: SolverState, blocks: BlockRegistry, channel: int)
    requires
        s.world.wf(),
        queues_wf(s),
        is_channel(channel),
        s.rem.len() == 0,
        gentle_or_queued(s, blocks, channel, None),
    ensures
        attenuated(solved(s, blocks, channel).world, blocks, channel),
{
    lemma_solved_attenuated_but(s, blocks, channel, None);
}

} // verus!
