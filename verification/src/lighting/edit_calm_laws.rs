//! Edits keep the light of a tidy world attenuated.

use vstd::prelude::*;
use crate::lighting::{after_placement, after_removal, darkened, emission_of, kindled, least,
    neighbors_seeded, rekindled, shadowed, sky_refill};
use crate::lighting::calm_laws::{calm, excused, excused_at, entry_backed, fading, fading_at,
    hole_dark, lemma_solved_calm, pending, receding, removals_backed, settling, tidy};
use crate::lighting::edit_laws::{lemma_emission_level, lemma_unlit_effect};
use crate::lighting::laws::{attenuated, attenuated_but, based, framed, gentle_at, gentle_or_queued,
    gentle_upto, lemma_framed_self, lemma_level_range, lemma_solved_framed, lemma_solved_idle,
    queued};
use crate::lighting::light_solver::{SolverState, idle, neighbor, queues_wf, seeded, solved, unlit};
use crate::lighting::lightmap::is_channel;
use crate::lighting::load_laws::{agree, extends, lemma_framed_agree, lemma_reseeded_effect,
    lemma_seeded_effect, seed_effect};
use crate::voxels::BlockRegistry;
use crate::voxels::world::WorldView;

verus! {

/// Whether every voxel that lets no light in is dark in `channel`, except
/// perhaps the voxel at (px, py, pz).
pub open spec fn tidy_except(
    world: WorldView,
    blocks: BlockRegistry,
    channel: int,
    px: int,
    py: int,
    pz: int,
) -> bool {
    forall|x: int, y: int, z: int|
        world.in_world(x, y, z) && !blocks.passes_light(world.block_at(x, y, z)->0) && !(x == px
            && y == py && z == pz) ==> #[trigger] world.level_at(x, y, z, channel) == 0
}

/// What the edit laws ask of a world in one channel: it is well formed,
/// attenuated but for the hole, and tidy except perhaps at (px, py, pz).
pub open spec fn sound_but(
    world: WorldView,
    blocks: BlockRegistry,
    channel: int,
    hole: Option<(int, int, int)>,
    px: int,
    py: int,
    pz: int,
) -> bool {
    &&& world.wf()
    &&& attenuated_but(world, blocks, channel, hole)
    &&& tidy_except(world, blocks, channel, px, py, pz)
}

/// What the edit laws give of a world in one channel: it is well formed,
/// attenuated but for the hole, and tidy.
pub open spec fn sound(
    world: WorldView,
    blocks: BlockRegistry,
    channel: int,
    hole: Option<(int, int, int)>,
) -> bool {
    &&& world.wf()
    &&& attenuated_but(world, blocks, channel, hole)
    &&& tidy(world, blocks, channel)
}

/// A change of the world that leaves a channel and the blocks alone leaves
/// the channel as sound as it was.
pub proof fn lemma_sound_transfer(
    before: WorldView,
    after: WorldView,
    blocks: BlockRegistry,
    channel: int,
    hole: Option<(int, int, int)>,
    px: int,
    py: int,
    pz: int,
)
    requires
        after.wf(),
        agree(after, before, channel),
    ensures
        sound_but(before, blocks, channel, hole, px, py, pz) ==> sound_but(
            after,
            blocks,
            channel,
            hole,
            px,
            py,
            pz,
        ),
        sound(before, blocks, channel, hole) ==> sound(after, blocks, channel, hole),
{
    assert forall|x: int, y: int, z: int| #[trigger]
        after.in_world(x, y, z) == before.in_world(x, y, z) by {}
    if attenuated_but(before, blocks, channel, hole) {
        assert forall|x: int, y: int, z: int| #[trigger]
            gentle_upto(after, blocks, channel, hole, x, y, z, 6) by {
            assert(gentle_upto(before, blocks, channel, hole, x, y, z, 6));
            assert forall|j: int| 0 <= j < 6 implies gentle_at(
                after,
                blocks,
                channel,
                hole,
                x,
                y,
                z,
                j,
            ) by {
                assert(gentle_at(before, blocks, channel, hole, x, y, z, j));
                let (mx, my, mz) = neighbor(x, y, z, j);
                assert(after.block_at(mx, my, mz) == before.block_at(mx, my, mz));
                assert(after.in_world(mx, my, mz) == before.in_world(mx, my, mz));
                assert(after.level_at(mx, my, mz, channel) == before.level_at(mx, my, mz, channel));
                assert(after.level_at(x, y, z, channel) == before.level_at(x, y, z, channel));
            }
        }
    }
    if tidy_except(before, blocks, channel, px, py, pz) {
        assert forall|x: int, y: int, z: int|
            after.in_world(x, y, z) && !blocks.passes_light(after.block_at(x, y, z)->0) && !(x == px
                && y == py && z == pz) implies #[trigger] after.level_at(x, y, z, channel) == 0 by {
            assert(after.block_at(x, y, z) == before.block_at(x, y, z));
            assert(before.in_world(x, y, z));
            assert(before.level_at(x, y, z, channel) == 0);
        }
    }
    if tidy(before, blocks, channel) {
        assert forall|x: int, y: int, z: int|
            after.in_world(x, y, z) && !blocks.passes_light(
                after.block_at(x, y, z)->0,
            ) implies #[trigger] after.level_at(x, y, z, channel) == 0 by {
            assert(after.block_at(x, y, z) == before.block_at(x, y, z));
            assert(before.in_world(x, y, z));
            assert(before.level_at(x, y, z, channel) == 0);
        }
    }
}

/// Framing is transitive.
pub proof fn lemma_framed_chain(a: WorldView, b: WorldView, c: WorldView, channel: int)
    requires
        framed(b, a, channel),
        framed(c, b, channel),
    ensures
        framed(c, a, channel),
{
    assert forall|x: int, y: int, z: int| #[trigger] c.block_at(x, y, z) == a.block_at(x, y, z) by {
        assert(c.block_at(x, y, z) == b.block_at(x, y, z));
    }
    assert forall|x: int, y: int, z: int, k: int| is_channel(k) && k != channel implies #[trigger]
        c.level_at(x, y, z, k) == a.level_at(x, y, z, k) by {
        assert(c.level_at(x, y, z, k) == b.level_at(x, y, z, k));
    }
}

/// Darkening a voxel and propagating changes one channel only.
pub proof fn lemma_darkened_framed(
    world: WorldView,
    blocks: BlockRegistry,
    channel: int,
    x: int,
    y: int,
    z: int,
)
    requires
        world.wf(),
        is_channel(channel),
    ensures
        framed(darkened(world, blocks, channel, x, y, z), world, channel),
{
    let a = unlit(idle(world), channel, x, y, z);
    lemma_unlit_effect(idle(world), channel, x, y, z);
    lemma_solved_framed(a, blocks, channel);
    lemma_framed_chain(world, a.world, solved(a, blocks, channel).world, channel);
}

/// Lighting a voxel and propagating changes one channel only.
pub proof fn lemma_kindled_framed(
    world: WorldView,
    blocks: BlockRegistry,
    channel: int,
    x: int,
    y: int,
    z: int,
    emission: int,
)
    requires
        world.wf(),
        is_channel(channel),
        emission <= 15,
    ensures
        framed(kindled(world, blocks, channel, x, y, z, emission), world, channel),
{
    let a = seeded(idle(world), channel, x, y, z, Some(emission));
    lemma_seeded_effect(idle(world), channel, x, y, z, emission);
    assert(framed(a.world, world, channel));
    assert(queues_wf(a)) by {
        assert forall|k: int| 0 <= k < a.add.len() implies 0 <= (#[trigger] a.add[k]).light
            <= 15 by {}
    }
    lemma_solved_framed(a, blocks, channel);
    lemma_framed_chain(world, a.world, solved(a, blocks, channel).world, channel);
}

/// Whether a state came from `before` by requests to light voxels of one
/// channel: the world is well formed and framed, the removal queue is as it
/// was, and the addition queue has grown by light levels.
pub open spec fn seeds_added(before: SolverState, after: SolverState, channel: int) -> bool {
    &&& framed(after.world, before.world, channel)
    &&& after.rem == before.rem
    &&& extends(after.add, before.add)
    &&& forall|k: int| before.add.len() <= k < after.add.len() ==> (#[trigger] after.add[k]).light
        <= 15
}

/// Requests to light voxels compose.
proof fn lemma_seeds_added_chain(a: SolverState, b: SolverState, c: SolverState, channel: int)
    requires
        seeds_added(a, b, channel),
        seeds_added(b, c, channel),
    ensures
        seeds_added(a, c, channel),
{
    lemma_framed_chain(a.world, b.world, c.world, channel);
    assert forall|k: int| 0 <= k < a.add.len() implies #[trigger] c.add[k] == a.add[k] by {
        assert(b.add[k] == a.add[k]);
        assert(c.add[k] == b.add[k]);
    }
    assert forall|k: int| a.add.len() <= k < c.add.len() implies (#[trigger] c.add[k]).light
        <= 15 by {
        if k < b.add.len() {
            assert(c.add[k] == b.add[k]);
        }
    }
}

/// A request to light a voxel adds seeds.
proof fn lemma_seeded_adds(u: SolverState, channel: int, x: int, y: int, z: int,
    emission: Option<int>)
    requires
        u.world.wf(),
        is_channel(channel),
        emission is Some ==> emission->0 <= 15,
    ensures
        seeds_added(u, seeded(u, channel, x, y, z, emission), channel),
{
    match emission {
        Some(e) => {
            lemma_seeded_effect(u, channel, x, y, z, e);
        },
        None => {
            lemma_reseeded_effect(u, channel, x, y, z);
            lemma_level_range(u.world, x, y, z, channel);
        },
    }
}

/// Seeds added to a resting state leave queues of light levels.
proof fn lemma_seeds_queues(world: WorldView, after: SolverState, channel: int)
    requires
        seeds_added(idle(world), after, channel),
    ensures
        queues_wf(after),
        after.rem.len() == 0,
{
    assert forall|k: int| 0 <= k < after.add.len() implies 0 <= (#[trigger] after.add[k]).light
        <= 15 by {}
}

/// Letting the neighbours of a voxel spread their light changes one channel
/// only.
pub proof fn lemma_rekindled_framed(
    world: WorldView,
    blocks: BlockRegistry,
    channel: int,
    x: int,
    y: int,
    z: int,
)
    requires
        world.wf(),
        is_channel(channel),
    ensures
        framed(rekindled(world, blocks, channel, x, y, z), world, channel),
{
    let s0 = idle(world);
    let s1 = seeded(s0, channel, x, y + 1, z, None);
    let s2 = seeded(s1, channel, x, y - 1, z, None);
    let s3 = seeded(s2, channel, x + 1, y, z, None);
    let s4 = seeded(s3, channel, x - 1, y, z, None);
    let s5 = seeded(s4, channel, x, y, z + 1, None);
    let s6 = seeded(s5, channel, x, y, z - 1, None);
    lemma_seeded_adds(s0, channel, x, y + 1, z, None);
    lemma_seeded_adds(s1, channel, x, y - 1, z, None);
    lemma_seeds_added_chain(s0, s1, s2, channel);
    lemma_seeded_adds(s2, channel, x + 1, y, z, None);
    lemma_seeds_added_chain(s0, s2, s3, channel);
    lemma_seeded_adds(s3, channel, x - 1, y, z, None);
    lemma_seeds_added_chain(s0, s3, s4, channel);
    lemma_seeded_adds(s4, channel, x, y, z + 1, None);
    lemma_seeds_added_chain(s0, s4, s5, channel);
    lemma_seeded_adds(s5, channel, x, y, z - 1, None);
    lemma_seeds_added_chain(s0, s5, s6, channel);
    lemma_seeds_queues(world, s6, channel);
    lemma_solved_framed(s6, blocks, channel);
    lemma_framed_chain(world, s6.world, solved(s6, blocks, channel).world, channel);
}

/// Seeding sky light down a column adds seeds.
proof fn lemma_sky_refill_adds(u: SolverState, x: int, z: int, y: int)
    requires
        u.world.wf(),
    ensures
        seeds_added(u, sky_refill(u, x, z, y), 3),
    decreases y + 1,
{
    lemma_framed_self(u.world, 3);
    if y >= 0 {
        match u.world.block_at(x, y, z) {
            None => {
                lemma_sky_refill_adds(u, x, z, y - 1);
            },
            Some(id) => {
                if id == 0 {
                    let next = seeded(u, 3, x, y, z, Some(15));
                    lemma_seeded_adds(u, 3, x, y, z, Some(15));
                    lemma_sky_refill_adds(next, x, z, y - 1);
                    lemma_seeds_added_chain(u, next, sky_refill(u, x, z, y), 3);
                }
            },
        }
    }
}

/// Seeding sky light down a column and propagating changes the sky channel
/// only.
pub proof fn lemma_refilled_framed(world: WorldView, blocks: BlockRegistry, x: int, z: int, y: int)
    requires
        world.wf(),
    ensures
        framed(solved(sky_refill(idle(world), x, z, y), blocks, 3).world, world, 3),
{
    let a = sky_refill(idle(world), x, z, y);
    lemma_sky_refill_adds(idle(world), x, z, y);
    lemma_seeds_queues(world, a, 3);
    lemma_solved_framed(a, blocks, 3);
    lemma_framed_chain(world, a.world, solved(a, blocks, 3).world, 3);
}

/// Casting a shadow down a column and propagating changes the sky channel
/// only.
pub proof fn lemma_shadow_framed(world: WorldView, blocks: BlockRegistry, x: int, z: int, y: int)
    requires
        world.wf(),
    ensures
        framed(solved(shadowed(idle(world), x, z, y), blocks, 3).world, world, 3),
{
    let a = shadowed(idle(world), x, z, y);
    crate::lighting::edit_laws::lemma_shadowed_effect(idle(world), x, z, y);
    lemma_solved_framed(a, blocks, 3);
    lemma_framed_chain(world, a.world, solved(a, blocks, 3).world, 3);
}

} // verus!

verus! {

/// The property `calm` with the state receding whether or not removals
/// wait.
pub open spec fn strictly_calm(
    u: SolverState,
    origin: WorldView,
    blocks: BlockRegistry,
    channel: int,
    hole: Option<(int, int, int)>,
) -> bool {
    &&& based(u, origin, channel)
    &&& tidy(u.world, blocks, channel)
    &&& settling(u, blocks, channel, hole)
    &&& receding(u, blocks, channel, hole)
}

/// A resting state in a sound world is settling and fading.
proof fn lemma_idle_settling(
    world: WorldView,
    blocks: BlockRegistry,
    channel: int,
    hole: Option<(int, int, int)>,
)
    requires
        world.wf(),
        is_channel(channel),
        attenuated_but(world, blocks, channel, hole),
    ensures
        based(idle(world), world, channel),
        settling(idle(world), blocks, channel, hole),
        gentle_or_queued(idle(world), blocks, channel, hole),
        fading(world, blocks, channel, hole),
        removals_backed(idle(world), channel),
{
    let u = idle(world);
    assert forall|x: int, y: int, z: int| #[trigger]
        excused(u, blocks, channel, hole, x, y, z) || queued(u, channel, x, y, z) by {
        assert(gentle_upto(world, blocks, channel, hole, x, y, z, 6));
    }
    assert forall|x: int, y: int, z: int| #[trigger]
        gentle_upto(u.world, blocks, channel, hole, x, y, z, 6) || queued(u, channel, x, y, z) by {
        assert(gentle_upto(world, blocks, channel, hole, x, y, z, 6));
    }
    assert forall|x: int, y: int, z: int, i: int| 0 <= i < 6 implies #[trigger] fading_at(
        world,
        blocks,
        channel,
        hole,
        x,
        y,
        z,
        i,
    ) by {
        assert(gentle_upto(world, blocks, channel, hole, x, y, z, 6));
        assert(gentle_at(world, blocks, channel, hole, x, y, z, i));
    }
}

/// A request to darken a voxel keeps a state strictly calm. Before the
/// request the voxel itself may be a lit voxel that lets no light in, and
/// may be a lit hole.
proof fn lemma_unlit_calms(
    u: SolverState,
    origin: WorldView,
    blocks: BlockRegistry,
    channel: int,
    hole: Option<(int, int, int)>,
    x: int,
    y: int,
    z: int,
)
    requires
        is_channel(channel),
        based(u, origin, channel),
        tidy_except(u.world, blocks, channel, x, y, z),
        settling(u, blocks, channel, hole),
        fading(u.world, blocks, channel, hole),
        removals_backed(u, channel),
        hole_dark(u.world, channel, hole) || hole == Some((x, y, z)),
    ensures
        strictly_calm(unlit(u, channel, x, y, z), origin, blocks, channel, hole),
{
    let after = unlit(u, channel, x, y, z);
    let level = u.world.level_at(x, y, z, channel);
    let lit = level != 0 && u.world.in_world(x, y, z);
    lemma_unlit_effect(u, channel, x, y, z);
    lemma_level_range(u.world, x, y, z, channel);
    lemma_framed_chain(origin, u.world, after.world, channel);
    if u.world.in_world(x, y, z) {
        u.world.lemma_slot(x, y, z);
    }
    assert forall|qx: int, qy: int, qz: int| #[trigger]
        after.world.in_world(qx, qy, qz) == u.world.in_world(qx, qy, qz) by {}
    assert forall|qx: int, qy: int, qz: int| #[trigger]
        after.world.level_at(qx, qy, qz, channel) == 0 || after.world.level_at(qx, qy, qz, channel)
            == u.world.level_at(qx, qy, qz, channel) by {
        assert(after.world.level_at(qx, qy, qz, channel) == if qx == x && qy == y && qz == z {
            0
        } else {
            u.world.level_at(qx, qy, qz, channel)
        });
    }
    // tidy
    assert forall|qx: int, qy: int, qz: int|
        after.world.in_world(qx, qy, qz) && !blocks.passes_light(
            after.world.block_at(qx, qy, qz)->0,
        ) implies #[trigger] after.world.level_at(qx, qy, qz, channel) == 0 by {
        assert(after.world.block_at(qx, qy, qz) == u.world.block_at(qx, qy, qz));
        assert(after.world.level_at(qx, qy, qz, channel) == if qx == x && qy == y && qz == z {
            0
        } else {
            u.world.level_at(qx, qy, qz, channel)
        });
        if !(qx == x && qy == y && qz == z) {
            assert(u.world.in_world(qx, qy, qz));
            assert(u.world.level_at(qx, qy, qz, channel) == 0);
        }
    }
    // fading
    assert forall|qx: int, qy: int, qz: int, j: int| 0 <= j < 6 implies #[trigger] fading_at(
        after.world,
        blocks,
        channel,
        hole,
        qx,
        qy,
        qz,
        j,
    ) by {
        let (mx, my, mz) = neighbor(qx, qy, qz, j);
        assert(fading_at(u.world, blocks, channel, hole, qx, qy, qz, j));
        assert(after.world.block_at(mx, my, mz) == u.world.block_at(mx, my, mz));
        assert(after.world.in_world(mx, my, mz) == u.world.in_world(mx, my, mz));
        assert(after.world.level_at(mx, my, mz, channel) == 0 || after.world.level_at(
            mx,
            my,
            mz,
            channel,
        ) == u.world.level_at(mx, my, mz, channel));
        assert(after.world.level_at(qx, qy, qz, channel) == 0 || after.world.level_at(
            qx,
            qy,
            qz,
            channel,
        ) == u.world.level_at(qx, qy, qz, channel));
        lemma_level_range(after.world, mx, my, mz, channel);
    }
    // the hole
    match hole {
        Some((hx, hy, hz)) => {
            assert(after.world.level_at(hx, hy, hz, channel) == if hx == x && hy == y && hz == z {
                0
            } else {
                u.world.level_at(hx, hy, hz, channel)
            });
        },
        None => {},
    }
    // the queued removals
    assert forall|k: int, j: int| 0 <= k < after.rem.len() && 0 <= j < 6 implies #[trigger]
        entry_backed(after.world, channel, after.rem[k], j) by {
        let r = after.rem[k];
        let (mx, my, mz) = neighbor(r.x as int, r.y as int, r.z as int, j);
        assert(after.world.level_at(mx, my, mz, channel) == 0 || after.world.level_at(
            mx,
            my,
            mz,
            channel,
        ) == u.world.level_at(mx, my, mz, channel));
        if k < u.rem.len() {
            assert(after.rem[k] == u.rem[k]);
            assert(entry_backed(u.world, channel, u.rem[k], j));
        } else {
            assert(lit);
            assert(r.x == x && r.y == y && r.z == z && r.light == level);
            assert(fading_at(u.world, blocks, channel, hole, x, y, z, j));
            if u.world.in_world(mx, my, mz) {
                if !blocks.passes_light(u.world.block_at(mx, my, mz)->0) {
                    assert(u.world.level_at(mx, my, mz, channel) == 0);
                } else if hole == Some((mx, my, mz)) {
                    assert(hole_dark(u.world, channel, hole));
                }
            }
        }
    }
    // every voxel is excused or queued
    assert forall|qx: int, qy: int, qz: int| #[trigger]
        excused(after, blocks, channel, hole, qx, qy, qz) || queued(after, channel, qx, qy, qz) by {
        assert(excused(u, blocks, channel, hole, qx, qy, qz) || queued(u, channel, qx, qy, qz));
        assert(after.world.level_at(qx, qy, qz, channel) == if qx == x && qy == y && qz == z {
            0
        } else {
            u.world.level_at(qx, qy, qz, channel)
        });
        if qx == x && qy == y && qz == z {
            assert forall|j: int| 0 <= j < 6 implies excused_at(
                after,
                blocks,
                channel,
                hole,
                qx,
                qy,
                qz,
                j,
            ) by {
                let (mx, my, mz) = neighbor(qx, qy, qz, j);
                lemma_level_range(after.world, mx, my, mz, channel);
            }
        } else if queued(u, channel, qx, qy, qz) {
            let k = choose|k: int|
                0 <= k < u.add.len() && (#[trigger] u.add[k]).x == qx && u.add[k].y == qy
                    && u.add[k].z == qz && u.add[k].light == u.world.level_at(qx, qy, qz, channel);
            assert(after.add[k] == u.add[k]);
            assert(queued(after, channel, qx, qy, qz));
        } else {
            assert forall|j: int| 0 <= j < 6 implies excused_at(
                after,
                blocks,
                channel,
                hole,
                qx,
                qy,
                qz,
                j,
            ) by {
                let (mx, my, mz) = neighbor(qx, qy, qz, j);
                assert(excused_at(u, blocks, channel, hole, qx, qy, qz, j));
                assert(after.world.block_at(mx, my, mz) == u.world.block_at(mx, my, mz));
                assert(after.world.in_world(mx, my, mz) == u.world.in_world(mx, my, mz));
                assert(after.world.level_at(mx, my, mz, channel) == if mx == x && my == y && mz
                    == z {
                    0
                } else {
                    u.world.level_at(mx, my, mz, channel)
                });
                if pending(u, mx, my, mz) {
                    let k = choose|k: int|
                        0 <= k < u.rem.len() && (#[trigger] u.rem[k]).x == mx && u.rem[k].y == my
                            && u.rem[k].z == mz;
                    assert(after.rem[k] == u.rem[k]);
                    assert(pending(after, mx, my, mz));
                } else if mx == x && my == y && mz == z && lit {
                    let k = u.rem.len() as int;
                    assert(after.rem[k].x == mx && after.rem[k].y == my && after.rem[k].z == mz);
                    assert(pending(after, mx, my, mz));
                } else {
                    assert(gentle_at(after.world, blocks, channel, hole, qx, qy, qz, j));
                }
            }
        }
    }
}

/// A strictly calm state is calm, also with its own world as the origin.
proof fn lemma_strictly_calm(
    u: SolverState,
    origin: WorldView,
    blocks: BlockRegistry,
    channel: int,
    hole: Option<(int, int, int)>,
)
    requires
        strictly_calm(u, origin, blocks, channel, hole),
    ensures
        calm(u, u.world, blocks, channel, hole),
{
    lemma_framed_self(u.world, channel);
}

/// Darkening a voxel and propagating keeps a channel sound. Before, the
/// voxel itself may be lit though it lets no light in; and it may be the
/// hole.
pub proof fn lemma_darkened_sound(
    world: WorldView,
    blocks: BlockRegistry,
    channel: int,
    hole: Option<(int, int, int)>,
    x: int,
    y: int,
    z: int,
)
    requires
        is_channel(channel),
        sound_but(world, blocks, channel, hole, x, y, z),
        hole is None || hole == Some((x, y, z)),
    ensures
        sound(darkened(world, blocks, channel, x, y, z), blocks, channel, hole),
{
    lemma_idle_settling(world, blocks, channel, hole);
    lemma_unlit_calms(idle(world), world, blocks, channel, hole, x, y, z);
    let a = unlit(idle(world), channel, x, y, z);
    lemma_strictly_calm(a, world, blocks, channel, hole);
    lemma_solved_calm(a, blocks, channel, hole);
}

/// Taking sky light from a column keeps a state strictly calm.
proof fn lemma_shadowed_calm(
    u: SolverState,
    origin: WorldView,
    blocks: BlockRegistry,
    hole: Option<(int, int, int)>,
    x: int,
    z: int,
    y: int,
)
    requires
        strictly_calm(u, origin, blocks, 3, hole),
    ensures
        strictly_calm(shadowed(u, x, z, y), origin, blocks, 3, hole),
    decreases y + 1,
{
    if y >= 0 {
        match u.world.block_at(x, y, z) {
            None => {
                lemma_shadowed_calm(u, origin, blocks, hole, x, z, y - 1);
            },
            Some(id) => {
                if id == 0 {
                    lemma_unlit_calms(u, origin, blocks, 3, hole, x, y, z);
                    lemma_shadowed_calm(unlit(u, 3, x, y, z), origin, blocks, hole, x, z, y - 1);
                }
            },
        }
    }
}

/// Casting a shadow down a column and propagating keeps the sky channel
/// sound.
pub proof fn lemma_shadow_sound(world: WorldView, blocks: BlockRegistry, x: int, z: int, y: int)
    requires
        sound(world, blocks, 3, None),
    ensures
        sound(solved(shadowed(idle(world), x, z, y), blocks, 3).world, blocks, 3, None),
{
    lemma_idle_settling(world, blocks, 3, None);
    lemma_shadowed_calm(idle(world), world, blocks, None, x, z, y);
    let a = shadowed(idle(world), x, z, y);
    lemma_strictly_calm(a, world, blocks, 3, None);
    lemma_solved_calm(a, blocks, 3, None);
}

/// What a state without queued removals needs to be calm: a tidy, well
/// formed world, queues of light levels, and every voxel gentle or queued.
pub open spec fn kindling(
    u: SolverState,
    blocks: BlockRegistry,
    channel: int,
    hole: Option<(int, int, int)>,
) -> bool {
    &&& u.world.wf()
    &&& queues_wf(u)
    &&& u.rem.len() == 0
    &&& tidy(u.world, blocks, channel)
    &&& gentle_or_queued(u, blocks, channel, hole)
}

/// A state that differs from a kindling state by the effect of a seed is
/// kindling, and the seeded voxel is queued if it is lit above level 1.
proof fn lemma_seed_effect_kindling(
    u: SolverState,
    after: SolverState,
    blocks: BlockRegistry,
    channel: int,
    hole: Option<(int, int, int)>,
    x: int,
    y: int,
    z: int,
    level: int,
)
    requires
        is_channel(channel),
        kindling(u, blocks, channel, hole),
        seed_effect(u, after, channel, x, y, z, level),
        u.world.level_at(x, y, z, channel) <= level <= 15,
        level == u.world.level_at(x, y, z, channel) || level <= 1 || !u.world.in_world(x, y, z)
            || blocks.passes_light(u.world.block_at(x, y, z)->0),
    ensures
        kindling(after, blocks, channel, hole),
        level > 1 && u.world.in_world(x, y, z) ==> queued(after, channel, x, y, z),
        forall|qx: int, qy: int, qz: int|
            queued(u, channel, qx, qy, qz) && !(qx == x && qy == y && qz == z)
                ==> #[trigger] queued(
                after,
                channel,
                qx,
                qy,
                qz,
            ),
{
    let lights = level > 1 && u.world.in_world(x, y, z);
    lemma_level_range(u.world, x, y, z, channel);
    assert forall|k: int| 0 <= k < after.add.len() implies 0 <= (#[trigger] after.add[k]).light
        <= 15 by {
        if k < u.add.len() {
            assert(after.add[k] == u.add[k]);
        }
    }
    assert forall|qx: int, qy: int, qz: int| #[trigger]
        after.world.in_world(qx, qy, qz) == u.world.in_world(qx, qy, qz) by {}
    assert forall|qx: int, qy: int, qz: int| #[trigger]
        after.world.level_at(qx, qy, qz, channel) >= u.world.level_at(qx, qy, qz, channel) by {
        assert(after.world.level_at(qx, qy, qz, channel) == if lights && qx == x && qy == y && qz
            == z {
            level
        } else {
            u.world.level_at(qx, qy, qz, channel)
        });
    }
    assert forall|qx: int, qy: int, qz: int|
        after.world.in_world(qx, qy, qz) && !blocks.passes_light(
            after.world.block_at(qx, qy, qz)->0,
        ) implies #[trigger] after.world.level_at(qx, qy, qz, channel) == 0 by {
        assert(after.world.block_at(qx, qy, qz) == u.world.block_at(qx, qy, qz));
        assert(after.world.level_at(qx, qy, qz, channel) == if lights && qx == x && qy == y && qz
            == z {
            level
        } else {
            u.world.level_at(qx, qy, qz, channel)
        });
        assert(u.world.level_at(qx, qy, qz, channel) == 0);
    }
    if lights {
        let k = u.add.len() as int;
        assert(after.add[k].x == x && after.add[k].y == y && after.add[k].z == z);
        assert(after.world.level_at(x, y, z, channel) == level);
        assert(queued(after, channel, x, y, z));
    }
    assert forall|qx: int, qy: int, qz: int|
        queued(u, channel, qx, qy, qz) && !(qx == x && qy == y && qz == z)
            implies #[trigger] queued(
        after,
        channel,
        qx,
        qy,
        qz,
    ) by {
        let k = choose|k: int|
            0 <= k < u.add.len() && (#[trigger] u.add[k]).x == qx && u.add[k].y == qy && u.add[k].z
                == qz && u.add[k].light == u.world.level_at(qx, qy, qz, channel);
        assert(after.add[k] == u.add[k]);
        assert(after.world.level_at(qx, qy, qz, channel) == if lights && qx == x && qy == y && qz
            == z {
            level
        } else {
            u.world.level_at(qx, qy, qz, channel)
        });
    }
    assert forall|qx: int, qy: int, qz: int| #[trigger]
        gentle_upto(after.world, blocks, channel, hole, qx, qy, qz, 6) || queued(
            after,
            channel,
            qx,
            qy,
            qz,
        ) by {
        assert(gentle_upto(u.world, blocks, channel, hole, qx, qy, qz, 6) || queued(
            u,
            channel,
            qx,
            qy,
            qz,
        ));
        assert(after.world.level_at(qx, qy, qz, channel) == if lights && qx == x && qy == y && qz
            == z {
            level
        } else {
            u.world.level_at(qx, qy, qz, channel)
        });
        if qx == x && qy == y && qz == z {
            if !lights {
                if queued(u, channel, qx, qy, qz) {
                    let k = choose|k: int|
                        0 <= k < u.add.len() && (#[trigger] u.add[k]).x == qx && u.add[k].y == qy
                            && u.add[k].z == qz && u.add[k].light == u.world.level_at(
                            qx,
                            qy,
                            qz,
                            channel,
                        );
                    assert(after.add[k] == u.add[k]);
                    assert(queued(after, channel, qx, qy, qz));
                } else {
                    assert forall|j: int| 0 <= j < 6 implies gentle_at(
                        after.world,
                        blocks,
                        channel,
                        hole,
                        qx,
                        qy,
                        qz,
                        j,
                    ) by {
                        assert(gentle_at(u.world, blocks, channel, hole, qx, qy, qz, j));
                        let (mx, my, mz) = neighbor(qx, qy, qz, j);
                        assert(after.world.block_at(mx, my, mz) == u.world.block_at(mx, my, mz));
                        assert(after.world.in_world(mx, my, mz) == u.world.in_world(mx, my, mz));
                        assert(after.world.level_at(mx, my, mz, channel) >= u.world.level_at(
                            mx,
                            my,
                            mz,
                            channel,
                        ));
                    }
                }
            }
        } else if !queued(u, channel, qx, qy, qz) {
            assert forall|j: int| 0 <= j < 6 implies gentle_at(
                after.world,
                blocks,
                channel,
                hole,
                qx,
                qy,
                qz,
                j,
            ) by {
                assert(gentle_at(u.world, blocks, channel, hole, qx, qy, qz, j));
                let (mx, my, mz) = neighbor(qx, qy, qz, j);
                assert(after.world.block_at(mx, my, mz) == u.world.block_at(mx, my, mz));
                assert(after.world.in_world(mx, my, mz) == u.world.in_world(mx, my, mz));
                assert(after.world.level_at(mx, my, mz, channel) >= u.world.level_at(
                    mx,
                    my,
                    mz,
                    channel,
                ));
            }
        }
    }
}

} // verus!

verus! {

/// A kindling state is calm.
proof fn lemma_kindling_calm(
    u: SolverState,
    blocks: BlockRegistry,
    channel: int,
    hole: Option<(int, int, int)>,
)
    requires
        kindling(u, blocks, channel, hole),
    ensures
        calm(u, u.world, blocks, channel, hole),
{
    lemma_framed_self(u.world, channel);
    crate::lighting::calm_laws::lemma_settling_gentle(u, blocks, channel, hole);
}

/// Seeding full sky light down a column keeps a state kindling.
proof fn lemma_sky_refill_kindling(
    u: SolverState,
    blocks: BlockRegistry,
    hole: Option<(int, int, int)>,
    x: int,
    z: int,
    y: int,
)
    requires
        kindling(u, blocks, 3, hole),
    ensures
        kindling(sky_refill(u, x, z, y), blocks, 3, hole),
    decreases y + 1,
{
    if y >= 0 {
        match u.world.block_at(x, y, z) {
            None => {
                lemma_sky_refill_kindling(u, blocks, hole, x, z, y - 1);
            },
            Some(id) => {
                if id == 0 {
                    let next = seeded(u, 3, x, y, z, Some(15));
                    lemma_seeded_effect(u, 3, x, y, z, 15);
                    lemma_level_range(u.world, x, y, z, 3);
                    lemma_seed_effect_kindling(u, next, blocks, 3, hole, x, y, z, 15);
                    lemma_sky_refill_kindling(next, blocks, hole, x, z, y - 1);
                }
            },
        }
    }
}

/// Seeding full sky light down a column and propagating keeps the sky
/// channel sound.
pub proof fn lemma_refilled_sound(
    world: WorldView,
    blocks: BlockRegistry,
    hole: Option<(int, int, int)>,
    x: int,
    z: int,
    y: int,
)
    requires
        sound(world, blocks, 3, hole),
    ensures
        sound(solved(sky_refill(idle(world), x, z, y), blocks, 3).world, blocks, 3, hole),
{
    lemma_idle_settling(world, blocks, 3, hole);
    lemma_sky_refill_kindling(idle(world), blocks, hole, x, z, y);
    let a = sky_refill(idle(world), x, z, y);
    lemma_kindling_calm(a, blocks, 3, hole);
    lemma_solved_calm(a, blocks, 3, hole);
}

/// Whether a voxel is dark or dim, or waits in the addition queue.
pub open spec fn dim_or_queued(u: SolverState, channel: int, x: int, y: int, z: int) -> bool {
    u.world.level_at(x, y, z, channel) <= 1 || queued(u, channel, x, y, z)
}

/// Whether `after` has the levels of `u` in `channel` and queues every
/// voxel that `u` queues.
pub open spec fn spread(u: SolverState, after: SolverState, channel: int) -> bool {
    &&& forall|x: int, y: int, z: int| #[trigger]
        after.world.level_at(x, y, z, channel) == u.world.level_at(x, y, z, channel)
    &&& forall|x: int, y: int, z: int|
        queued(u, channel, x, y, z) ==> #[trigger] queued(after, channel, x, y, z)
}

/// Spreading composes, and keeps a voxel dim or queued.
proof fn lemma_spread_chain(
    a: SolverState,
    b: SolverState,
    c: SolverState,
    channel: int,
    x: int,
    y: int,
    z: int,
)
    requires
        spread(a, b, channel),
        spread(b, c, channel),
    ensures
        spread(a, c, channel),
        dim_or_queued(b, channel, x, y, z) ==> dim_or_queued(c, channel, x, y, z),
{
    assert forall|qx: int, qy: int, qz: int| #[trigger]
        c.world.level_at(qx, qy, qz, channel) == a.world.level_at(qx, qy, qz, channel) by {
        assert(b.world.level_at(qx, qy, qz, channel) == a.world.level_at(qx, qy, qz, channel));
    }
    assert forall|qx: int, qy: int, qz: int| queued(a, channel, qx, qy, qz)
        implies #[trigger] queued(
        c,
        channel,
        qx,
        qy,
        qz,
    ) by {
        assert(queued(b, channel, qx, qy, qz));
    }
    assert(c.world.level_at(x, y, z, channel) == b.world.level_at(x, y, z, channel));
}

/// A request to a voxel to spread its stored level keeps a state kindling,
/// keeps the levels, keeps queued what is queued, and leaves the voxel dim
/// or queued.
proof fn lemma_reseeded_kindling(
    u: SolverState,
    blocks: BlockRegistry,
    channel: int,
    hole: Option<(int, int, int)>,
    x: int,
    y: int,
    z: int,
)
    requires
        is_channel(channel),
        kindling(u, blocks, channel, hole),
    ensures
        kindling(seeded(u, channel, x, y, z, None), blocks, channel, hole),
        spread(u, seeded(u, channel, x, y, z, None), channel),
        dim_or_queued(seeded(u, channel, x, y, z, None), channel, x, y, z),
{
    let after = seeded(u, channel, x, y, z, None);
    let level = u.world.level_at(x, y, z, channel);
    lemma_reseeded_effect(u, channel, x, y, z);
    lemma_level_range(u.world, x, y, z, channel);
    lemma_seed_effect_kindling(u, after, blocks, channel, hole, x, y, z, level);
    assert forall|qx: int, qy: int, qz: int| #[trigger]
        after.world.level_at(qx, qy, qz, channel) == u.world.level_at(qx, qy, qz, channel) by {
        assert(after.world.level_at(qx, qy, qz, channel) == if level > 1 && u.world.in_world(
            x,
            y,
            z,
        ) && qx == x && qy == y && qz == z {
            level
        } else {
            u.world.level_at(qx, qy, qz, channel)
        });
    }
    assert forall|qx: int, qy: int, qz: int| queued(u, channel, qx, qy, qz)
        implies #[trigger] queued(
        after,
        channel,
        qx,
        qy,
        qz,
    ) by {
        if qx == x && qy == y && qz == z {
            let k = choose|k: int|
                0 <= k < u.add.len() && (#[trigger] u.add[k]).x == qx && u.add[k].y == qy
                    && u.add[k].z == qz && u.add[k].light == u.world.level_at(qx, qy, qz, channel);
            assert(after.add[k] == u.add[k]);
        }
    }
    assert(level > 1 ==> u.world.in_world(x, y, z));
}

/// After the six neighbours of a voxel were asked to spread their light,
/// the state is kindling as before, has the levels it had, and each of the
/// six is dim or queued.
proof fn lemma_neighbors_seeded(
    u: SolverState,
    blocks: BlockRegistry,
    channel: int,
    hole: Option<(int, int, int)>,
    x: int,
    y: int,
    z: int,
)
    requires
        is_channel(channel),
        kindling(u, blocks, channel, hole),
    ensures
        kindling(neighbors_seeded(u, channel, x, y, z), blocks, channel, hole),
        spread(u, neighbors_seeded(u, channel, x, y, z), channel),
        forall|i: int|
            0 <= i < 6 ==> {
                let (nx, ny, nz) = #[trigger] neighbor(x, y, z, i);
                dim_or_queued(neighbors_seeded(u, channel, x, y, z), channel, nx, ny, nz)
            },
{
    let s1 = seeded(u, channel, x, y + 1, z, None);
    let s2 = seeded(s1, channel, x, y - 1, z, None);
    let s3 = seeded(s2, channel, x + 1, y, z, None);
    let s4 = seeded(s3, channel, x - 1, y, z, None);
    let s5 = seeded(s4, channel, x, y, z + 1, None);
    let s6 = seeded(s5, channel, x, y, z - 1, None);
    lemma_reseeded_kindling(u, blocks, channel, hole, x, y + 1, z);
    lemma_reseeded_kindling(s1, blocks, channel, hole, x, y - 1, z);
    lemma_reseeded_kindling(s2, blocks, channel, hole, x + 1, y, z);
    lemma_reseeded_kindling(s3, blocks, channel, hole, x - 1, y, z);
    lemma_reseeded_kindling(s4, blocks, channel, hole, x, y, z + 1);
    lemma_reseeded_kindling(s5, blocks, channel, hole, x, y, z - 1);
    // towards s6, step by step
    lemma_spread_chain(s4, s5, s6, channel, x, y, z + 1);
    lemma_spread_chain(s3, s4, s5, channel, x - 1, y, z);
    lemma_spread_chain(s3, s5, s6, channel, x - 1, y, z);
    lemma_spread_chain(s2, s3, s4, channel, x + 1, y, z);
    lemma_spread_chain(s2, s4, s5, channel, x + 1, y, z);
    lemma_spread_chain(s2, s5, s6, channel, x + 1, y, z);
    lemma_spread_chain(s1, s2, s3, channel, x, y - 1, z);
    lemma_spread_chain(s1, s3, s4, channel, x, y - 1, z);
    lemma_spread_chain(s1, s4, s5, channel, x, y - 1, z);
    lemma_spread_chain(s1, s5, s6, channel, x, y - 1, z);
    lemma_spread_chain(u, s1, s2, channel, x, y + 1, z);
    lemma_spread_chain(u, s2, s3, channel, x, y + 1, z);
    lemma_spread_chain(u, s3, s4, channel, x, y + 1, z);
    lemma_spread_chain(u, s4, s5, channel, x, y + 1, z);
    lemma_spread_chain(u, s5, s6, channel, x, y + 1, z);
    assert(dim_or_queued(s6, channel, x, y + 1, z));
    assert(dim_or_queued(s6, channel, x, y - 1, z));
    assert(dim_or_queued(s6, channel, x + 1, y, z));
    assert(dim_or_queued(s6, channel, x - 1, y, z));
    assert(dim_or_queued(s6, channel, x, y, z + 1));
    assert(dim_or_queued(s6, channel, x, y, z - 1));
}

/// Letting the neighbours of a voxel spread their light and propagating
/// makes a channel sound that was sound but for that voxel: the light of
/// the neighbours fills the hole.
pub proof fn lemma_rekindled_sound(
    world: WorldView,
    blocks: BlockRegistry,
    channel: int,
    x: int,
    y: int,
    z: int,
)
    requires
        is_channel(channel),
        sound(world, blocks, channel, Some((x, y, z))),
    ensures
        sound(rekindled(world, blocks, channel, x, y, z), blocks, channel, None),
{
    let hole = Some((x, y, z));
    lemma_idle_settling(world, blocks, channel, hole);
    let s = neighbors_seeded(idle(world), channel, x, y, z);
    lemma_neighbors_seeded(idle(world), blocks, channel, hole, x, y, z);
    lemma_fill_hole(s, blocks, channel, x, y, z);
    lemma_kindling_calm(s, blocks, channel, None);
    lemma_solved_calm(s, blocks, channel, None);
}

/// A kindling state with a hole whose neighbours are all dim or queued is
/// kindling without the hole.
proof fn lemma_fill_hole(u: SolverState, blocks: BlockRegistry, channel: int, x: int, y: int,
    z: int)
    requires
        is_channel(channel),
        kindling(u, blocks, channel, Some((x, y, z))),
        forall|i: int|
            0 <= i < 6 ==> {
                let (nx, ny, nz) = #[trigger] neighbor(x, y, z, i);
                dim_or_queued(u, channel, nx, ny, nz)
            },
    ensures
        kindling(u, blocks, channel, None),
{
    let hole = Some((x, y, z));
    assert forall|qx: int, qy: int, qz: int| #[trigger]
        gentle_upto(u.world, blocks, channel, None, qx, qy, qz, 6) || queued(
            u,
            channel,
            qx,
            qy,
            qz,
        ) by {
        assert(gentle_upto(u.world, blocks, channel, hole, qx, qy, qz, 6) || queued(
            u,
            channel,
            qx,
            qy,
            qz,
        ));
        if !queued(u, channel, qx, qy, qz) {
            assert forall|j: int| 0 <= j < 6 implies gentle_at(
                u.world,
                blocks,
                channel,
                None,
                qx,
                qy,
                qz,
                j,
            ) by {
                assert(gentle_at(u.world, blocks, channel, hole, qx, qy, qz, j));
                let (mx, my, mz) = neighbor(qx, qy, qz, j);
                if mx == x && my == y && mz == z {
                    crate::lighting::calm_laws::lemma_opposite(qx, qy, qz, j);
                    let back = crate::lighting::calm_laws::opposite(j);
                    assert(neighbor(x, y, z, back) == (qx, qy, qz));
                    assert(dim_or_queued(u, channel, qx, qy, qz));
                    lemma_level_range(u.world, mx, my, mz, channel);
                }
            }
        }
    }
}

} // verus!

verus! {

/// A stage of an edit that works on another channel keeps a channel as
/// sound as it was.
proof fn lemma_stage_elsewhere(
    before: WorldView,
    after: WorldView,
    blocks: BlockRegistry,
    stage: int,
    channel: int,
    hole: Option<(int, int, int)>,
    px: int,
    py: int,
    pz: int,
)
    requires
        framed(after, before, stage),
        is_channel(channel),
        stage != channel,
    ensures
        sound_but(before, blocks, channel, hole, px, py, pz) ==> sound_but(
            after,
            blocks,
            channel,
            hole,
            px,
            py,
            pz,
        ),
        sound(before, blocks, channel, hole) ==> sound(after, blocks, channel, hole),
{
    lemma_framed_agree(after, before, stage, channel);
    lemma_sound_transfer(before, after, blocks, channel, hole, px, py, pz);
}

/// Darkening a voxel in any channel keeps `channel` sound but for the
/// voxel, and makes it tidy if the stage works on `channel`.
proof fn lemma_darkened_stage(
    world: WorldView,
    blocks: BlockRegistry,
    stage: int,
    channel: int,
    hole: Option<(int, int, int)>,
    x: int,
    y: int,
    z: int,
)
    requires
        is_channel(stage),
        is_channel(channel),
        sound_but(world, blocks, channel, hole, x, y, z),
        hole is None || hole == Some((x, y, z)),
    ensures
        sound_but(darkened(world, blocks, stage, x, y, z), blocks, channel, hole, x, y, z),
        stage == channel || tidy(world, blocks, channel) ==> sound(
            darkened(world, blocks, stage, x, y, z),
            blocks,
            channel,
            hole,
        ),
{
    let after = darkened(world, blocks, stage, x, y, z);
    if stage == channel {
        lemma_darkened_sound(world, blocks, channel, hole, x, y, z);
    } else {
        lemma_darkened_framed(world, blocks, stage, x, y, z);
        lemma_stage_elsewhere(world, after, blocks, stage, channel, hole, x, y, z);
    }
}

/// Placing a block keeps the light of a tidy world attenuated. If before
/// the call no voxel is more than one level brighter than a light-passing
/// neighbour, and every voxel that lets no light in is dark, except perhaps
/// the voxel of the new block, and the new block does not light the
/// channel, then afterwards the same holds, with the voxel of the new block
/// dark too if it lets no light in.
pub proof fn lemma_placement_keeps_attenuation(
    world: WorldView,
    blocks: BlockRegistry,
    x: int,
    y: int,
    z: int,
    id: u8,
    channel: int,
)
    requires
        world.wf(),
        blocks.wf(),
        is_channel(channel),
        attenuated(world, blocks, channel),
        tidy_except(world, blocks, channel, x, y, z),
        channel < 3 ==> emission_of(blocks, id, channel) <= 1,
    ensures
        attenuated(after_placement(world, blocks, x, y, z, id), blocks, channel),
        tidy(after_placement(world, blocks, x, y, z, id), blocks, channel),
{
    let w1 = darkened(world, blocks, 0, x, y, z);
    lemma_darkened_stage(world, blocks, 0, channel, None, x, y, z);
    let w2 = darkened(w1, blocks, 1, x, y, z);
    lemma_darkened_stage(w1, blocks, 1, channel, None, x, y, z);
    let w3 = darkened(w2, blocks, 2, x, y, z);
    lemma_darkened_stage(w2, blocks, 2, channel, None, x, y, z);
    let w4 = darkened(w3, blocks, 3, x, y, z);
    lemma_darkened_stage(w3, blocks, 3, channel, None, x, y, z);
    assert(sound(w4, blocks, channel, None));
    let from = least(y - 1, w4.top());
    let w5 = solved(shadowed(idle(w4), x, z, from), blocks, 3).world;
    if channel == 3 {
        lemma_shadow_sound(w4, blocks, x, z, from);
    } else {
        lemma_shadow_framed(w4, blocks, x, z, from);
        lemma_stage_elsewhere(w4, w5, blocks, 3, channel, None, x, y, z);
    }
    lemma_emission_level(blocks, id, 0);
    lemma_emission_level(blocks, id, 1);
    lemma_emission_level(blocks, id, 2);
    let w6 = kindled(w5, blocks, 0, x, y, z, emission_of(blocks, id, 0));
    lemma_kindled_stage(w5, blocks, 0, channel, x, y, z, emission_of(blocks, id, 0));
    let w7 = kindled(w6, blocks, 1, x, y, z, emission_of(blocks, id, 1));
    lemma_kindled_stage(w6, blocks, 1, channel, x, y, z, emission_of(blocks, id, 1));
    lemma_kindled_stage(w7, blocks, 2, channel, x, y, z, emission_of(blocks, id, 2));
}

/// Lighting a voxel in another channel, or at a level that cannot spread,
/// keeps a channel sound.
proof fn lemma_kindled_stage(
    world: WorldView,
    blocks: BlockRegistry,
    stage: int,
    channel: int,
    x: int,
    y: int,
    z: int,
    emission: int,
)
    requires
        is_channel(stage),
        is_channel(channel),
        sound(world, blocks, channel, None),
        emission <= 15,
        stage != channel || emission <= 1,
    ensures
        sound(kindled(world, blocks, stage, x, y, z, emission), blocks, channel, None),
{
    let after = kindled(world, blocks, stage, x, y, z, emission);
    if stage == channel {
        lemma_solved_idle(world, blocks, stage);
    } else {
        lemma_kindled_framed(world, blocks, stage, x, y, z, emission);
        lemma_stage_elsewhere(world, after, blocks, stage, channel, None, x, y, z);
    }
}

/// Letting the neighbours of a voxel spread their light in any channel
/// keeps `channel` sound, and fills the hole if the stage works on
/// `channel`.
proof fn lemma_rekindled_stage(
    world: WorldView,
    blocks: BlockRegistry,
    stage: int,
    channel: int,
    hole: Option<(int, int, int)>,
    x: int,
    y: int,
    z: int,
)
    requires
        is_channel(stage),
        is_channel(channel),
        sound(world, blocks, channel, hole),
        hole is None || hole == Some((x, y, z)),
        stage == channel ==> hole is Some,
    ensures
        sound(
            rekindled(world, blocks, stage, x, y, z),
            blocks,
            channel,
            if stage == channel {
                None
            } else {
                hole
            },
        ),
{
    let after = rekindled(world, blocks, stage, x, y, z);
    if stage == channel {
        lemma_rekindled_sound(world, blocks, channel, x, y, z);
    } else {
        lemma_rekindled_framed(world, blocks, stage, x, y, z);
        lemma_stage_elsewhere(world, after, blocks, stage, channel, hole, x, y, z);
    }
}

/// Removing a block keeps the light of a tidy world attenuated. If before
/// the call no voxel is more than one level brighter than a light-passing
/// neighbour other than the opened voxel, and every voxel that lets no light
/// in is dark, then afterwards no voxel is more than one level brighter than
/// any light-passing neighbour, and every voxel that lets no light in is
/// still dark.
pub proof fn lemma_removal_keeps_attenuation(
    world: WorldView,
    blocks: BlockRegistry,
    x: int,
    y: int,
    z: int,
    channel: int,
)
    requires
        world.wf(),
        is_channel(channel),
        attenuated_but(world, blocks, channel, Some((x, y, z))),
        tidy(world, blocks, channel),
    ensures
        attenuated(after_removal(world, blocks, x, y, z), blocks, channel),
        tidy(after_removal(world, blocks, x, y, z), blocks, channel),
{
    let hole = Some((x, y, z));
    assert(tidy_except(world, blocks, channel, x, y, z));
    let w1 = darkened(world, blocks, 0, x, y, z);
    lemma_darkened_stage(world, blocks, 0, channel, hole, x, y, z);
    let w2 = darkened(w1, blocks, 1, x, y, z);
    lemma_darkened_stage(w1, blocks, 1, channel, hole, x, y, z);
    let w3 = darkened(w2, blocks, 2, x, y, z);
    lemma_darkened_stage(w2, blocks, 2, channel, hole, x, y, z);
    assert(sound(w3, blocks, channel, hole));
    let from = least(y, w3.top());
    let w4 = if w3.level_at(x, y + 1, z, 3) == 15 {
        solved(sky_refill(idle(w3), x, z, from), blocks, 3).world
    } else {
        w3
    };
    if w3.level_at(x, y + 1, z, 3) == 15 {
        if channel == 3 {
            lemma_refilled_sound(w3, blocks, hole, x, z, from);
        } else {
            lemma_refilled_framed(w3, blocks, x, z, from);
            lemma_stage_elsewhere(w3, w4, blocks, 3, channel, hole, x, y, z);
        }
    }
    assert(sound(w4, blocks, channel, hole));
    let w5 = rekindled(w4, blocks, 0, x, y, z);
    lemma_rekindled_stage(w4, blocks, 0, channel, hole, x, y, z);
    let h5: Option<(int, int, int)> = if channel == 0 {
        None
    } else {
        hole
    };
    let w6 = rekindled(w5, blocks, 1, x, y, z);
    lemma_rekindled_stage(w5, blocks, 1, channel, h5, x, y, z);
    let h6: Option<(int, int, int)> = if channel <= 1 {
        None
    } else {
        hole
    };
    let w7 = rekindled(w6, blocks, 2, x, y, z);
    lemma_rekindled_stage(w6, blocks, 2, channel, h6, x, y, z);
    let h7: Option<(int, int, int)> = if channel <= 2 {
        None
    } else {
        hole
    };
    lemma_rekindled_stage(w7, blocks, 3, channel, h7, x, y, z);
}

} // verus!
