//! Laws of the light after a block was placed.

use vstd::prelude::*;
use crate::lighting::{after_placement, darkened, emission_of, kindled, least, shadowed};
use crate::lighting::laws::{attenuated, based, framed, gentle_at, gentle_upto,
    lemma_add_visit_based, lemma_add_visit_effect, lemma_level_range, lemma_rem_visit_based,
    lemma_solved_framed, lemma_solved_idle, lemma_solved_keeps, step_invariant, add_visit_lights};
use crate::lighting::light_solver::{LightEntry, SolverState, add_visit, idle, neighbor, popped_add,
    popped_rem, queues_wf, rem_visit, seeded, solved, unlit};
use crate::lighting::lightmap::{is_channel, is_level};
use crate::lighting::load_laws::lemma_pop_based;
use crate::voxels::BlockRegistry;
use crate::voxels::world::WorldView;

verus! {

/// Whether no voxel of `world` is brighter in `channel` than it is in
/// `reference`, the two worlds holding the same blocks.
pub open spec fn dimmer(world: WorldView, reference: WorldView, channel: int) -> bool {
    &&& world.wf()
    &&& world.same_blocks(reference)
    &&& forall|x: int, y: int, z: int| #[trigger]
        world.level_at(x, y, z, channel) <= reference.level_at(x, y, z, channel)
}

/// Whether no queued addition carries a level above the level that its
/// voxel has in `reference`.
pub open spec fn entries_below(queue: Seq<LightEntry>, reference: WorldView, channel: int) -> bool {
    forall|k: int|
        0 <= k < queue.len() ==> (#[trigger] queue[k]).light <= reference.level_at(
            queue[k].x as int,
            queue[k].y as int,
            queue[k].z as int,
            channel,
        )
}

/// Property of solver states that propagation keeps when it starts from a
/// dimmed copy of an attenuated world: the world stays dimmer than the
/// reference and no queued addition exceeds the reference.
pub open spec fn dimmed(u: SolverState, origin: WorldView, reference: WorldView, channel: int)
    -> bool {
    &&& based(u, origin, channel)
    &&& dimmer(u.world, reference, channel)
    &&& entries_below(u.add, reference, channel)
}

/// A removal visit keeps a state dimmed.
proof fn lemma_rem_visit_dimmed(
    u: SolverState,
    origin: WorldView,
    reference: WorldView,
    channel: int,
    e: LightEntry,
    i: int,
)
    requires
        dimmed(u, origin, reference, channel),
        is_channel(channel),
        0 <= i < 6,
    ensures
        dimmed(rem_visit(u, channel, e, i), origin, reference, channel),
{
    let after = rem_visit(u, channel, e, i);
    let (nx, ny, nz) = neighbor(e.x as int, e.y as int, e.z as int, i);
    lemma_rem_visit_based(u, origin, channel, e, i);
    u.world.lemma_with_level(nx, ny, nz, channel, 0);
    if u.world.in_world(nx, ny, nz) {
        u.world.lemma_slot(nx, ny, nz);
    }
    lemma_level_range(reference, nx, ny, nz, channel);
    assert forall|x: int, y: int, z: int| #[trigger]
        after.world.block_at(x, y, z) == reference.block_at(x, y, z) by {
        assert(u.world.block_at(x, y, z) == reference.block_at(x, y, z));
    }
    assert forall|x: int, y: int, z: int| #[trigger]
        after.world.level_at(x, y, z, channel) <= reference.level_at(x, y, z, channel) by {
        assert(u.world.level_at(x, y, z, channel) <= reference.level_at(x, y, z, channel));
        lemma_level_range(reference, x, y, z, channel);
    }
    assert forall|k: int| 0 <= k < after.add.len() implies (#[trigger] after.add[k]).light
        <= reference.level_at(
        after.add[k].x as int,
        after.add[k].y as int,
        after.add[k].z as int,
        channel,
    ) by {
        if k < u.add.len() {
            assert(after.add[k] == u.add[k]);
        } else {
            assert(u.world.level_at(nx, ny, nz, channel) <= reference.level_at(
                nx,
                ny,
                nz,
                channel,
            ));
        }
    }
}

/// An addition visit keeps a state dimmed, if the reference world is
/// attenuated and the entry does not exceed the reference.
proof fn lemma_add_visit_dimmed(
    u: SolverState,
    origin: WorldView,
    reference: WorldView,
    blocks: BlockRegistry,
    channel: int,
    e: LightEntry,
    i: int,
)
    requires
        dimmed(u, origin, reference, channel),
        attenuated(reference, blocks, channel),
        is_channel(channel),
        1 <= e.light <= reference.level_at(e.x as int, e.y as int, e.z as int, channel),
        0 <= i < 6,
    ensures
        dimmed(add_visit(u, blocks, channel, e, i), origin, reference, channel),
{
    let after = add_visit(u, blocks, channel, e, i);
    let (nx, ny, nz) = neighbor(e.x as int, e.y as int, e.z as int, i);
    lemma_level_range(reference, e.x as int, e.y as int, e.z as int, channel);
    lemma_add_visit_based(u, origin, blocks, channel, e, i);
    lemma_add_visit_effect(u, blocks, channel, e, i);
    let lights = add_visit_lights(u, blocks, channel, e, i);
    if lights {
        assert(gentle_upto(reference, blocks, channel, None, e.x as int, e.y as int, e.z as int,
            6));
        assert(gentle_at(reference, blocks, channel, None, e.x as int, e.y as int, e.z as int, i));
        assert(u.world.block_at(nx, ny, nz) == reference.block_at(nx, ny, nz));
        u.world.lemma_slot(nx, ny, nz);
        assert(reference.in_world(nx, ny, nz));
        assert(e.light - 1 <= reference.level_at(nx, ny, nz, channel));
    }
    assert forall|x: int, y: int, z: int| #[trigger]
        after.world.block_at(x, y, z) == reference.block_at(x, y, z) by {
        assert(after.world.block_at(x, y, z) == u.world.block_at(x, y, z));
        assert(u.world.block_at(x, y, z) == reference.block_at(x, y, z));
    }
    assert forall|x: int, y: int, z: int| #[trigger]
        after.world.level_at(x, y, z, channel) <= reference.level_at(x, y, z, channel) by {
        assert(u.world.level_at(x, y, z, channel) <= reference.level_at(x, y, z, channel));
    }
    assert forall|k: int| 0 <= k < after.add.len() implies (#[trigger] after.add[k]).light
        <= reference.level_at(
        after.add[k].x as int,
        after.add[k].y as int,
        after.add[k].z as int,
        channel,
    ) by {
        if k < u.add.len() {
            assert(after.add[k] == u.add[k]);
        }
    }
}

/// Propagation never raises a level above an attenuated reference world:
/// from a state that is dimmer than the reference and queues no addition
/// above it, the solved world is dimmer than the reference.
pub proof fn lemma_solved_dimmer(
    s: SolverState,
    reference: WorldView,
    blocks: BlockRegistry,
    channel: int,
)
    requires
        queues_wf(s),
        is_channel(channel),
        attenuated(reference, blocks, channel),
        dimmer(s.world, reference, channel),
        entries_below(s.add, reference, channel),
    ensures
        dimmer(solved(s, blocks, channel).world, reference, channel),
{
    let origin = s.world;
    let inv = |u: SolverState| dimmed(u, origin, reference, channel);
    let mid_rem = |u: SolverState, e: LightEntry, i: int| dimmed(u, origin, reference, channel);
    let mid_add = |u: SolverState, e: LightEntry, i: int|
        dimmed(u, origin, reference, channel) && 1 <= e.light <= reference.level_at(
            e.x as int,
            e.y as int,
            e.z as int,
            channel,
        );
    assert(step_invariant(inv, mid_rem, mid_add, blocks, channel)) by {
        assert forall|u: SolverState| #[trigger] inv(u) && u.rem.len() > 0 implies mid_rem(
            popped_rem(u),
            u.rem[0],
            0,
        ) by {
            lemma_pop_rem_dimmed(u, origin, reference, channel);
        }
        assert forall|u: SolverState, e: LightEntry, i: int| 0 <= i < 6 && #[trigger] mid_rem(
            u,
            e,
            i,
        ) implies mid_rem(rem_visit(u, channel, e, i), e, i + 1) by {
            lemma_rem_visit_dimmed(u, origin, reference, channel, e, i);
        }
        assert forall|u: SolverState| #[trigger]
            inv(u) && u.rem.len() == 0 && u.add.len() > 0 && u.add[0].light <= 1 implies inv(
            popped_add(u),
        ) by {
            lemma_pop_add_dimmed(u, origin, reference, channel);
        }
        assert forall|u: SolverState| #[trigger]
            inv(u) && u.rem.len() == 0 && u.add.len() > 0 && u.add[0].light > 1 implies mid_add(
            popped_add(u),
            u.add[0],
            0,
        ) by {
            lemma_pop_add_dimmed(u, origin, reference, channel);
        }
        assert forall|u: SolverState, e: LightEntry, i: int| 0 <= i < 6 && #[trigger] mid_add(
            u,
            e,
            i,
        ) implies mid_add(add_visit(u, blocks, channel, e, i), e, i + 1) by {
            lemma_add_visit_dimmed(u, origin, reference, blocks, channel, e, i);
        }
    }
    lemma_solved_keeps(inv, mid_rem, mid_add, blocks, channel, s);
}

/// Taking the oldest removal entry off its queue keeps a state dimmed.
proof fn lemma_pop_rem_dimmed(u: SolverState, origin: WorldView, reference: WorldView, channel: int)
    requires
        dimmed(u, origin, reference, channel),
        u.rem.len() > 0,
    ensures
        dimmed(popped_rem(u), origin, reference, channel),
{
    let rest = popped_rem(u);
    assert forall|k: int| 0 <= k < rest.rem.len() implies 1 <= (#[trigger] rest.rem[k]).light
        <= 15 by {
        assert(rest.rem[k] == u.rem[k + 1]);
    }
}

/// Taking the oldest addition entry off its queue keeps a state dimmed; the
/// entry taken does not exceed the reference.
proof fn lemma_pop_add_dimmed(u: SolverState, origin: WorldView, reference: WorldView, channel: int)
    requires
        dimmed(u, origin, reference, channel),
        u.add.len() > 0,
    ensures
        dimmed(popped_add(u), origin, reference, channel),
        u.add[0].light <= reference.level_at(
            u.add[0].x as int,
            u.add[0].y as int,
            u.add[0].z as int,
            channel,
        ),
{
    let rest = popped_add(u);
    lemma_pop_based(u, origin, channel);
    assert forall|k: int| 0 <= k < rest.add.len() implies (#[trigger] rest.add[k]).light
        <= reference.level_at(
        rest.add[k].x as int,
        rest.add[k].y as int,
        rest.add[k].z as int,
        channel,
    ) by {
        assert(rest.add[k] == u.add[k + 1]);
    }
}

} // verus!

verus! {

/// What a request to darken a voxel does, read through positions: the world
/// stays well formed and keeps its block ids and its other channels; no
/// level of the channel rises and the voxel ends dark; the addition queue
/// stays as it is and the queues keep holding light levels.
pub open spec fn unlit_effect(u: SolverState, after: SolverState, channel: int, x: int, y: int,
    z: int)
    -> bool {
    &&& framed(after.world, u.world, channel)
    &&& forall|qx: int, qy: int, qz: int| #[trigger]
        after.world.level_at(qx, qy, qz, channel) == if qx == x && qy == y && qz == z {
            0
        } else {
            u.world.level_at(qx, qy, qz, channel)
        }
    &&& after.add == u.add
    &&& queues_wf(after)
}

/// A request to darken a voxel has the effect `unlit_effect`.
pub proof fn lemma_unlit_effect(u: SolverState, channel: int, x: int, y: int, z: int)
    requires
        u.world.wf(),
        queues_wf(u),
        is_channel(channel),
    ensures
        unlit_effect(u, unlit(u, channel, x, y, z), channel, x, y, z),
{
    let after = unlit(u, channel, x, y, z);
    lemma_level_range(u.world, x, y, z, channel);
    u.world.lemma_with_level(x, y, z, channel, 0);
    if u.world.in_world(x, y, z) {
        u.world.lemma_slot(x, y, z);
    }
    assert forall|k: int| 0 <= k < after.rem.len() implies 1 <= (#[trigger] after.rem[k]).light
        <= 15 by {
        if k < u.rem.len() {
            assert(after.rem[k] == u.rem[k]);
        }
    }
}

/// Darkening a voxel in any channel and propagating keeps a world dimmer
/// than an attenuated reference.
pub proof fn lemma_darkened_dimmer(
    world: WorldView,
    reference: WorldView,
    blocks: BlockRegistry,
    stage: int,
    channel: int,
    x: int,
    y: int,
    z: int,
)
    requires
        dimmer(world, reference, channel),
        attenuated(reference, blocks, channel),
        is_channel(stage),
        is_channel(channel),
    ensures
        dimmer(darkened(world, blocks, stage, x, y, z), reference, channel),
{
    let a = unlit(idle(world), stage, x, y, z);
    lemma_unlit_effect(idle(world), stage, x, y, z);
    let after = solved(a, blocks, stage).world;
    if stage == channel {
        assert(dimmer(a.world, reference, channel)) by {
            assert forall|qx: int, qy: int, qz: int| #[trigger]
                a.world.level_at(qx, qy, qz, channel) <= reference.level_at(qx, qy, qz,
                    channel) by {
                lemma_level_range(reference, qx, qy, qz, channel);
                assert(world.level_at(qx, qy, qz, channel) <= reference.level_at(
                    qx,
                    qy,
                    qz,
                    channel,
                ));
            }
            assert forall|qx: int, qy: int, qz: int| #[trigger]
                a.world.block_at(qx, qy, qz) == reference.block_at(qx, qy, qz) by {
                assert(world.block_at(qx, qy, qz) == reference.block_at(qx, qy, qz));
            }
        }
        lemma_solved_dimmer(a, reference, blocks, channel);
    } else {
        lemma_solved_framed(a, blocks, stage);
        assert forall|qx: int, qy: int, qz: int| #[trigger]
            after.level_at(qx, qy, qz, channel) <= reference.level_at(qx, qy, qz, channel) by {
            assert(after.level_at(qx, qy, qz, channel) == a.world.level_at(qx, qy, qz, channel));
            assert(a.world.level_at(qx, qy, qz, channel) == world.level_at(qx, qy, qz, channel));
            assert(world.level_at(qx, qy, qz, channel) <= reference.level_at(qx, qy, qz, channel));
        }
        assert forall|qx: int, qy: int, qz: int| #[trigger]
            after.block_at(qx, qy, qz) == reference.block_at(qx, qy, qz) by {
            assert(after.block_at(qx, qy, qz) == a.world.block_at(qx, qy, qz));
            assert(a.world.block_at(qx, qy, qz) == world.block_at(qx, qy, qz));
            assert(world.block_at(qx, qy, qz) == reference.block_at(qx, qy, qz));
        }
    }
}

/// What taking sky light from a column does, read through positions: the
/// world stays well formed and keeps its block ids and colours; no sky level
/// rises; the addition queue stays as it is and the queues keep holding
/// light levels.
pub open spec fn shadow_effect(u: SolverState, after: SolverState) -> bool {
    &&& framed(after.world, u.world, 3)
    &&& forall|qx: int, qy: int, qz: int| #[trigger]
        after.world.level_at(qx, qy, qz, 3) <= u.world.level_at(qx, qy, qz, 3)
    &&& after.add == u.add
    &&& queues_wf(after)
}

/// Taking sky light from a column has the effect `shadow_effect`.
pub proof fn lemma_shadowed_effect(u: SolverState, x: int, z: int, y: int)
    requires
        u.world.wf(),
        queues_wf(u),
    ensures
        shadow_effect(u, shadowed(u, x, z, y)),
    decreases y + 1,
{
    let after = shadowed(u, x, z, y);
    if y >= 0 {
        match u.world.block_at(x, y, z) {
            None => {
                lemma_shadowed_effect(u, x, z, y - 1);
            },
            Some(id) => {
                if id == 0 {
                    let next = unlit(u, 3, x, y, z);
                    lemma_unlit_effect(u, 3, x, y, z);
                    lemma_shadowed_effect(next, x, z, y - 1);
                    assert forall|qx: int, qy: int, qz: int| #[trigger]
                        after.world.block_at(qx, qy, qz) == u.world.block_at(qx, qy, qz) by {
                        assert(after.world.block_at(qx, qy, qz) == next.world.block_at(qx, qy, qz));
                    }
                    assert forall|qx: int, qy: int, qz: int, c: int|
                        is_channel(c) && c != 3 implies #[trigger] after.world.level_at(
                        qx,
                        qy,
                        qz,
                        c,
                    ) == u.world.level_at(qx, qy, qz, c) by {
                        assert(after.world.level_at(qx, qy, qz, c) == next.world.level_at(
                            qx,
                            qy,
                            qz,
                            c,
                        ));
                    }
                    assert forall|qx: int, qy: int, qz: int| #[trigger]
                        after.world.level_at(qx, qy, qz, 3) <= u.world.level_at(qx, qy, qz, 3) by {
                        assert(after.world.level_at(qx, qy, qz, 3) <= next.world.level_at(
                            qx,
                            qy,
                            qz,
                            3,
                        ));
                        lemma_level_range(u.world, qx, qy, qz, 3);
                    }
                }
            },
        }
    }
}

/// Casting a shadow down a column and propagating keeps a world dimmer than
/// an attenuated reference.
pub proof fn lemma_shadow_dimmer(
    world: WorldView,
    reference: WorldView,
    blocks: BlockRegistry,
    channel: int,
    x: int,
    z: int,
    y: int,
)
    requires
        dimmer(world, reference, channel),
        attenuated(reference, blocks, channel),
        is_channel(channel),
    ensures
        dimmer(solved(shadowed(idle(world), x, z, y), blocks, 3).world, reference, channel),
{
    let a = shadowed(idle(world), x, z, y);
    lemma_shadowed_effect(idle(world), x, z, y);
    let after = solved(a, blocks, 3).world;
    assert forall|qx: int, qy: int, qz: int| #[trigger]
        a.world.block_at(qx, qy, qz) == reference.block_at(qx, qy, qz) by {
        assert(world.block_at(qx, qy, qz) == reference.block_at(qx, qy, qz));
    }
    if channel == 3 {
        assert forall|qx: int, qy: int, qz: int| #[trigger]
            a.world.level_at(qx, qy, qz, channel) <= reference.level_at(qx, qy, qz, channel) by {
            assert(world.level_at(qx, qy, qz, channel) <= reference.level_at(qx, qy, qz, channel));
        }
        lemma_solved_dimmer(a, reference, blocks, channel);
    } else {
        lemma_solved_framed(a, blocks, 3);
        assert forall|qx: int, qy: int, qz: int| #[trigger]
            after.level_at(qx, qy, qz, channel) <= reference.level_at(qx, qy, qz, channel) by {
            assert(after.level_at(qx, qy, qz, channel) == a.world.level_at(qx, qy, qz, channel));
            assert(a.world.level_at(qx, qy, qz, channel) == world.level_at(qx, qy, qz, channel));
            assert(world.level_at(qx, qy, qz, channel) <= reference.level_at(qx, qy, qz, channel));
        }
        assert forall|qx: int, qy: int, qz: int| #[trigger]
            after.block_at(qx, qy, qz) == reference.block_at(qx, qy, qz) by {
            assert(after.block_at(qx, qy, qz) == a.world.block_at(qx, qy, qz));
        }
    }
}

/// Lighting a voxel in another channel, or at a level that cannot spread,
/// and propagating keeps a world dimmer than the reference.
pub proof fn lemma_kindled_dimmer(
    world: WorldView,
    reference: WorldView,
    blocks: BlockRegistry,
    stage: int,
    channel: int,
    x: int,
    y: int,
    z: int,
    emission: int,
)
    requires
        dimmer(world, reference, channel),
        is_channel(stage),
        is_channel(channel),
        0 <= emission <= 15,
        stage != channel || emission <= 1,
    ensures
        dimmer(kindled(world, blocks, stage, x, y, z, emission), reference, channel),
{
    let a = seeded(idle(world), stage, x, y, z, Some(emission));
    let after = solved(a, blocks, stage).world;
    if emission <= 1 {
        lemma_solved_idle(world, blocks, stage);
    } else {
        world.lemma_with_level(x, y, z, stage, emission);
        lemma_solved_framed(a, blocks, stage);
        assert forall|qx: int, qy: int, qz: int| #[trigger]
            after.level_at(qx, qy, qz, channel) <= reference.level_at(qx, qy, qz, channel) by {
            assert(after.level_at(qx, qy, qz, channel) == a.world.level_at(qx, qy, qz, channel));
            assert(a.world.level_at(qx, qy, qz, channel) == world.level_at(qx, qy, qz, channel));
            assert(world.level_at(qx, qy, qz, channel) <= reference.level_at(qx, qy, qz, channel));
        }
        assert forall|qx: int, qy: int, qz: int| #[trigger]
            after.block_at(qx, qy, qz) == reference.block_at(qx, qy, qz) by {
            assert(after.block_at(qx, qy, qz) == a.world.block_at(qx, qy, qz));
            assert(a.world.block_at(qx, qy, qz) == world.block_at(qx, qy, qz));
            assert(world.block_at(qx, qy, qz) == reference.block_at(qx, qy, qz));
        }
    }
}

/// Emission of a registered block is a light level.
pub proof fn lemma_emission_level(blocks: BlockRegistry, id: u8, channel: int)
    requires
        blocks.wf(),
        0 <= channel < 3,
    ensures
        0 <= emission_of(blocks, id, channel) <= 15,
{
    if blocks.lookup(id) is Some {
        let b = blocks.blocks@[id as int];
        assert(b->0.wf());
    }
}

/// Placing a block that does not light `channel` raises no level of that
/// channel anywhere, if the light was attenuated before: an occluder only
/// takes light away.
pub proof fn lemma_placement_dims(
    world: WorldView,
    blocks: BlockRegistry,
    x: int,
    y: int,
    z: int,
    id: u8,
    channel: int,
)
    requires
        world.wf(),
        blocks.wf(),
        is_channel(channel),
        attenuated(world, blocks, channel),
        channel < 3 ==> emission_of(blocks, id, channel) <= 1,
    ensures
        dimmer(after_placement(world, blocks, x, y, z, id), world, channel),
{
    assert(dimmer(world, world, channel));
    let w1 = darkened(world, blocks, 0, x, y, z);
    lemma_darkened_dimmer(world, world, blocks, 0, channel, x, y, z);
    let w2 = darkened(w1, blocks, 1, x, y, z);
    lemma_darkened_dimmer(w1, world, blocks, 1, channel, x, y, z);
    let w3 = darkened(w2, blocks, 2, x, y, z);
    lemma_darkened_dimmer(w2, world, blocks, 2, channel, x, y, z);
    let w4 = darkened(w3, blocks, 3, x, y, z);
    lemma_darkened_dimmer(w3, world, blocks, 3, channel, x, y, z);
    let w5 = solved(shadowed(idle(w4), x, z, least(y - 1, w4.top())), blocks, 3).world;
    lemma_shadow_dimmer(w4, world, blocks, channel, x, z, least(y - 1, w4.top()));
    lemma_emission_level(blocks, id, 0);
    lemma_emission_level(blocks, id, 1);
    lemma_emission_level(blocks, id, 2);
    let w6 = kindled(w5, blocks, 0, x, y, z, emission_of(blocks, id, 0));
    lemma_kindled_dimmer(w5, world, blocks, 0, channel, x, y, z, emission_of(blocks, id, 0));
    let w7 = kindled(w6, blocks, 1, x, y, z, emission_of(blocks, id, 1));
    lemma_kindled_dimmer(w6, world, blocks, 1, channel, x, y, z, emission_of(blocks, id, 1));
    lemma_kindled_dimmer(w7, world, blocks, 2, channel, x, y, z, emission_of(blocks, id, 2));
}

/// Whether the voxel at (x, y, z), if it lies in the world, holds a block
/// that lets no light in.
pub open spec fn shut(world: WorldView, blocks: BlockRegistry, x: int, y: int, z: int) -> bool {
    world.in_world(x, y, z) ==> !blocks.passes_light(world.block_at(x, y, z)->0)
}

/// Propagation leaves a dark voxel dark if its block lets no light in.
pub proof fn lemma_solved_keeps_dark(
    s: SolverState,
    blocks: BlockRegistry,
    channel: int,
    x: int,
    y: int,
    z: int,
)
    requires
        s.world.wf(),
        queues_wf(s),
        is_channel(channel),
        s.world.level_at(x, y, z, channel) == 0,
        shut(s.world, blocks, x, y, z),
    ensures
        solved(s, blocks, channel).world.level_at(x, y, z, channel) == 0,
        based(solved(s, blocks, channel), s.world, channel),
{
    let origin = s.world;
    let inv = |u: SolverState|
        based(u, origin, channel) && u.world.level_at(x, y, z, channel) == 0;
    let mid_rem = |u: SolverState, e: LightEntry, i: int|
        based(u, origin, channel) && u.world.level_at(x, y, z, channel) == 0;
    let mid_add = |u: SolverState, e: LightEntry, i: int|
        based(u, origin, channel) && u.world.level_at(x, y, z, channel) == 0 && 1 <= e.light <= 15;
    assert(step_invariant(inv, mid_rem, mid_add, blocks, channel)) by {
        assert forall|u: SolverState| #[trigger] inv(u) && u.rem.len() > 0 implies mid_rem(
            popped_rem(u),
            u.rem[0],
            0,
        ) by {
            let rest = popped_rem(u);
            assert forall|k: int| 0 <= k < rest.rem.len() implies 1 <= (
            #[trigger] rest.rem[k]).light <= 15 by {
                assert(rest.rem[k] == u.rem[k + 1]);
            }
        }
        assert forall|u: SolverState, e: LightEntry, i: int| 0 <= i < 6 && #[trigger] mid_rem(
            u,
            e,
            i,
        ) implies mid_rem(rem_visit(u, channel, e, i), e, i + 1) by {
            let (nx, ny, nz) = neighbor(e.x as int, e.y as int, e.z as int, i);
            lemma_rem_visit_based(u, origin, channel, e, i);
            u.world.lemma_with_level(nx, ny, nz, channel, 0);
        }
        assert forall|u: SolverState| #[trigger]
            inv(u) && u.rem.len() == 0 && u.add.len() > 0 && u.add[0].light <= 1 implies inv(
            popped_add(u),
        ) by {
            lemma_pop_based(u, origin, channel);
        }
        assert forall|u: SolverState| #[trigger]
            inv(u) && u.rem.len() == 0 && u.add.len() > 0 && u.add[0].light > 1 implies mid_add(
            popped_add(u),
            u.add[0],
            0,
        ) by {
            lemma_pop_based(u, origin, channel);
        }
        assert forall|u: SolverState, e: LightEntry, i: int| 0 <= i < 6 && #[trigger] mid_add(
            u,
            e,
            i,
        ) implies mid_add(add_visit(u, blocks, channel, e, i), e, i + 1) by {
            lemma_add_visit_based(u, origin, blocks, channel, e, i);
            lemma_add_visit_effect(u, blocks, channel, e, i);
            let after = add_visit(u, blocks, channel, e, i);
            let (nx, ny, nz) = neighbor(e.x as int, e.y as int, e.z as int, i);
            assert(u.world.block_at(x, y, z) == origin.block_at(x, y, z));
            assert(after.world.level_at(x, y, z, channel) == if add_visit_lights(
                u,
                blocks,
                channel,
                e,
                i,
            ) && x == nx && y == ny && z == nz {
                e.light - 1
            } else {
                u.world.level_at(x, y, z, channel)
            });
        }
    }
    lemma_solved_keeps(inv, mid_rem, mid_add, blocks, channel, s);
}

/// After a block that lets no light in was placed, its voxel has no sky
/// light.
pub proof fn lemma_placement_darkens(
    world: WorldView,
    blocks: BlockRegistry,
    x: int,
    y: int,
    z: int,
    id: u8,
)
    requires
        world.wf(),
        blocks.wf(),
        shut(world, blocks, x, y, z),
    ensures
        after_placement(world, blocks, x, y, z, id).level_at(x, y, z, 3) == 0,
{
    let w1 = darkened(world, blocks, 0, x, y, z);
    lemma_unlit_effect(idle(world), 0, x, y, z);
    lemma_solved_framed(unlit(idle(world), 0, x, y, z), blocks, 0);
    let w2 = darkened(w1, blocks, 1, x, y, z);
    lemma_unlit_effect(idle(w1), 1, x, y, z);
    lemma_solved_framed(unlit(idle(w1), 1, x, y, z), blocks, 1);
    let w3 = darkened(w2, blocks, 2, x, y, z);
    lemma_unlit_effect(idle(w2), 2, x, y, z);
    lemma_solved_framed(unlit(idle(w2), 2, x, y, z), blocks, 2);
    assert(shut(w3, blocks, x, y, z)) by {
        assert(w3.block_at(x, y, z) == w2.block_at(x, y, z));
        assert(w2.block_at(x, y, z) == w1.block_at(x, y, z));
        assert(w1.block_at(x, y, z) == world.block_at(x, y, z));
    }
    let a4 = unlit(idle(w3), 3, x, y, z);
    lemma_unlit_effect(idle(w3), 3, x, y, z);
    assert(a4.world.level_at(x, y, z, 3) == 0);
    assert(a4.world.block_at(x, y, z) == w3.block_at(x, y, z));
    lemma_solved_keeps_dark(a4, blocks, 3, x, y, z);
    let w4 = darkened(w3, blocks, 3, x, y, z);
    assert(w4.block_at(x, y, z) == a4.world.block_at(x, y, z));
    let a5 = shadowed(idle(w4), x, z, least(y - 1, w4.top()));
    lemma_shadowed_effect(idle(w4), x, z, least(y - 1, w4.top()));
    assert(a5.world.level_at(x, y, z, 3) <= w4.level_at(x, y, z, 3));
    lemma_level_range(a5.world, x, y, z, 3);
    assert(a5.world.block_at(x, y, z) == w4.block_at(x, y, z));
    lemma_solved_keeps_dark(a5, blocks, 3, x, y, z);
    let w5 = solved(a5, blocks, 3).world;
    lemma_emission_level(blocks, id, 0);
    lemma_emission_level(blocks, id, 1);
    lemma_emission_level(blocks, id, 2);
    let a6 = seeded(idle(w5), 0, x, y, z, Some(emission_of(blocks, id, 0)));
    w5.lemma_with_level(x, y, z, 0, emission_of(blocks, id, 0));
    lemma_solved_framed(a6, blocks, 0);
    let w6 = solved(a6, blocks, 0).world;
    assert(w6.level_at(x, y, z, 3) == a6.world.level_at(x, y, z, 3));
    assert(a6.world.level_at(x, y, z, 3) == w5.level_at(x, y, z, 3));
    let a7 = seeded(idle(w6), 1, x, y, z, Some(emission_of(blocks, id, 1)));
    w6.lemma_with_level(x, y, z, 1, emission_of(blocks, id, 1));
    lemma_solved_framed(a7, blocks, 1);
    let w7 = solved(a7, blocks, 1).world;
    assert(w7.level_at(x, y, z, 3) == a7.world.level_at(x, y, z, 3));
    assert(a7.world.level_at(x, y, z, 3) == w6.level_at(x, y, z, 3));
    let a8 = seeded(idle(w7), 2, x, y, z, Some(emission_of(blocks, id, 2)));
    w7.lemma_with_level(x, y, z, 2, emission_of(blocks, id, 2));
    lemma_solved_framed(a8, blocks, 2);
    let w8 = solved(a8, blocks, 2).world;
    assert(w8.level_at(x, y, z, 3) == a8.world.level_at(x, y, z, 3));
    assert(a8.world.level_at(x, y, z, 3) == w7.level_at(x, y, z, 3));
}

} // verus!
