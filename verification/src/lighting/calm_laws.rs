//! The attenuation of light survives propagation that starts with
//! removals, in worlds whose opaque voxels are dark.

use vstd::prelude::*;
use crate::lighting::laws::{attenuated_but, based, gentle_at, gentle_midway, gentle_or_queued,
    gentle_upto, lemma_add_visit_based, lemma_add_visit_effect, lemma_level_range,
    lemma_rem_visit_based, lemma_solved_keeps, lemma_solved_settled, queued, step_invariant,
    lemma_add_visit_gentle, lemma_pop_gentle};
use crate::lighting::light_solver::{LightEntry, SolverState, add_visit, neighbor, popped_add,
    popped_rem, rem_visit, solved};
use crate::lighting::lightmap::is_channel;
use crate::lighting::load_laws::lemma_pop_based;
use crate::voxels::BlockRegistry;
use crate::voxels::world::WorldView;

verus! {

/// Number of the neighbour that lies opposite neighbour number `i`.
pub open spec fn opposite(i: int) -> int {
    if i == 0 {
        1
    } else if i == 1 {
        0
    } else if i == 2 {
        3
    } else if i == 3 {
        2
    } else if i == 4 {
        5
    } else {
        4
    }
}

/// Neighbourhood is mutual: a voxel is the opposite neighbour of each of
/// its neighbours.
pub proof fn lemma_opposite(x: int, y: int, z: int, i: int)
    requires
        0 <= i < 6,
    ensures
        0 <= opposite(i) < 6,
        opposite(opposite(i)) == i,
        ({
            let (nx, ny, nz) = neighbor(x, y, z, i);
            neighbor(nx, ny, nz, opposite(i)) == (x, y, z)
        }),
{
}

/// Whether every voxel that lets no light in is dark in `channel`.
pub open spec fn tidy(world: WorldView, blocks: BlockRegistry, channel: int) -> bool {
    forall|x: int, y: int, z: int|
        world.in_world(x, y, z) && !blocks.passes_light(world.block_at(x, y, z)->0)
            ==> #[trigger] world.level_at(x, y, z, channel) == 0
}

/// Whether the removal queue holds the voxel at (x, y, z).
pub open spec fn pending(u: SolverState, x: int, y: int, z: int) -> bool {
    exists|k: int|
        0 <= k < u.rem.len() && (#[trigger] u.rem[k]).x == x && u.rem[k].y == y && u.rem[k].z == z
}

/// Whether (x, y, z) is gentle towards its neighbour number `i`, or that
/// neighbour waits in the removal queue.
pub open spec fn excused_at(
    u: SolverState,
    blocks: BlockRegistry,
    channel: int,
    hole: Option<(int, int, int)>,
    x: int,
    y: int,
    z: int,
    i: int,
) -> bool {
    let (nx, ny, nz) = neighbor(x, y, z, i);
    gentle_at(u.world, blocks, channel, hole, x, y, z, i) || pending(u, nx, ny, nz)
}

/// Whether (x, y, z) is excused towards all six neighbours.
pub open spec fn excused(
    u: SolverState,
    blocks: BlockRegistry,
    channel: int,
    hole: Option<(int, int, int)>,
    x: int,
    y: int,
    z: int,
) -> bool {
    forall|i: int| 0 <= i < 6 ==> excused_at(u, blocks, channel, hole, x, y, z, i)
}

/// Whether every voxel is excused or waits in the addition queue with its
/// current level.
pub open spec fn settling(
    u: SolverState,
    blocks: BlockRegistry,
    channel: int,
    hole: Option<(int, int, int)>,
) -> bool {
    forall|x: int, y: int, z: int| #[trigger]
        excused(u, blocks, channel, hole, x, y, z) || queued(u, channel, x, y, z)
}

/// Whether neighbour number `i` of (x, y, z), if it lies in the world, lets
/// light pass and is not the hole, is dark or at most one level darker than
/// (x, y, z).
pub open spec fn fading_at(
    world: WorldView,
    blocks: BlockRegistry,
    channel: int,
    hole: Option<(int, int, int)>,
    x: int,
    y: int,
    z: int,
    i: int,
) -> bool {
    let (nx, ny, nz) = neighbor(x, y, z, i);
    world.in_world(nx, ny, nz) && blocks.passes_light(world.block_at(nx, ny, nz)->0) && hole
        != Some((nx, ny, nz)) ==> world.level_at(nx, ny, nz, channel) == 0 || world.level_at(
        nx,
        ny,
        nz,
        channel,
    ) + 1 >= world.level_at(x, y, z, channel)
}

/// Whether light falls off by at most one level per step wherever it has
/// not been taken away.
pub open spec fn fading(
    world: WorldView,
    blocks: BlockRegistry,
    channel: int,
    hole: Option<(int, int, int)>,
) -> bool {
    forall|x: int, y: int, z: int, i: int|
        0 <= i < 6 ==> #[trigger] fading_at(world, blocks, channel, hole, x, y, z, i)
}

/// Whether neighbour number `i` of the removal entry `e` is dark or at most
/// one level darker than the level that the entry carries.
pub open spec fn entry_backed(world: WorldView, channel: int, e: LightEntry, i: int) -> bool {
    let (ux, uy, uz) = neighbor(e.x as int, e.y as int, e.z as int, i);
    world.level_at(ux, uy, uz, channel) == 0 || world.level_at(ux, uy, uz, channel) + 1 >= e.light
}

/// Whether every queued removal is backed towards all its neighbours.
pub open spec fn removals_backed(u: SolverState, channel: int) -> bool {
    forall|k: int, i: int|
        0 <= k < u.rem.len() && 0 <= i < 6 ==> #[trigger] entry_backed(
            u.world,
            channel,
            u.rem[k],
            i,
        )
}

/// Whether the hole, if there is one, is dark.
pub open spec fn hole_dark(world: WorldView, channel: int, hole: Option<(int, int, int)>) -> bool {
    match hole {
        Some((hx, hy, hz)) => world.level_at(hx, hy, hz, channel) == 0,
        None => true,
    }
}

/// What holds of a state while removals are processed: light fades, the
/// queued removals are backed and the hole is dark.
pub open spec fn receding(
    u: SolverState,
    blocks: BlockRegistry,
    channel: int,
    hole: Option<(int, int, int)>,
) -> bool {
    &&& fading(u.world, blocks, channel, hole)
    &&& removals_backed(u, channel)
    &&& hole_dark(u.world, channel, hole)
}

/// The property of solver states that propagation keeps in a tidy world:
/// every voxel is excused or queued, and while removals wait the state is
/// receding.
pub open spec fn calm(
    u: SolverState,
    origin: WorldView,
    blocks: BlockRegistry,
    channel: int,
    hole: Option<(int, int, int)>,
) -> bool {
    &&& based(u, origin, channel)
    &&& tidy(u.world, blocks, channel)
    &&& settling(u, blocks, channel, hole)
    &&& u.rem.len() > 0 ==> receding(u, blocks, channel, hole)
}

/// Whether (x, y, z) is excused towards its neighbour number `j` in the
/// middle of the step that applies the removal entry `e`, after `i` visits:
/// it is excused, or the neighbour is the voxel of `e` and (x, y, z) has not
/// been visited yet.
pub open spec fn excused_mid_at(
    u: SolverState,
    blocks: BlockRegistry,
    channel: int,
    hole: Option<(int, int, int)>,
    e: LightEntry,
    i: int,
    x: int,
    y: int,
    z: int,
    j: int,
) -> bool {
    excused_at(u, blocks, channel, hole, x, y, z, j) || (neighbor(x, y, z, j) == (
        e.x as int,
        e.y as int,
        e.z as int,
    ) && opposite(j) >= i)
}

/// Whether (x, y, z) is excused towards all six neighbours in the middle of
/// a removal step, or waits in the addition queue.
pub open spec fn settling_mid_at(
    u: SolverState,
    blocks: BlockRegistry,
    channel: int,
    hole: Option<(int, int, int)>,
    e: LightEntry,
    i: int,
    x: int,
    y: int,
    z: int,
) -> bool {
    queued(u, channel, x, y, z) || forall|j: int|
        0 <= j < 6 ==> excused_mid_at(u, blocks, channel, hole, e, i, x, y, z, j)
}

/// The property `calm` in the middle of the step that applies the removal
/// entry `e`, after `i` visits.
pub open spec fn calm_mid(
    u: SolverState,
    origin: WorldView,
    blocks: BlockRegistry,
    channel: int,
    hole: Option<(int, int, int)>,
    e: LightEntry,
    i: int,
) -> bool {
    &&& based(u, origin, channel)
    &&& tidy(u.world, blocks, channel)
    &&& receding(u, blocks, channel, hole)
    &&& 1 <= e.light <= 15
    &&& forall|j: int| 0 <= j < 6 ==> entry_backed(u.world, channel, e, j)
    &&& forall|x: int, y: int, z: int| #[trigger]
        settling_mid_at(u, blocks, channel, hole, e, i, x, y, z)
}

/// What a removal visit does, read through positions. The visited
/// neighbour goes dark and joins the removal queue if it was lit exactly one
/// level below the entry; it joins the addition queue if it was at least as
/// bright as the entry; nothing else changes.
pub open spec fn rem_visit_effect(
    u: SolverState,
    after: SolverState,
    channel: int,
    e: LightEntry,
    i: int,
) -> bool {
    let (nx, ny, nz) = neighbor(e.x as int, e.y as int, e.z as int, i);
    let level = u.world.level_at(nx, ny, nz, channel);
    let inside = u.world.in_world(nx, ny, nz);
    let dims = inside && level != 0 && level == e.light - 1;
    let keeps = inside && !dims && level >= e.light;
    &&& after.world.same_blocks(u.world)
    &&& forall|x: int, y: int, z: int| #[trigger]
        after.world.in_world(x, y, z) == u.world.in_world(x, y, z)
    &&& forall|x: int, y: int, z: int| #[trigger]
        after.world.level_at(x, y, z, channel) == if dims && x == nx && y == ny && z == nz {
            0
        } else {
            u.world.level_at(x, y, z, channel)
        }
    &&& after.rem.len() == u.rem.len() + if dims {
        1int
    } else {
        0int
    }
    &&& forall|k: int| 0 <= k < u.rem.len() ==> #[trigger] after.rem[k] == u.rem[k]
    &&& dims ==> {
        let last = after.rem[u.rem.len() as int];
        last.x == nx && last.y == ny && last.z == nz && last.light == level
    }
    &&& after.add.len() == u.add.len() + if keeps {
        1int
    } else {
        0int
    }
    &&& forall|k: int| 0 <= k < u.add.len() ==> #[trigger] after.add[k] == u.add[k]
    &&& keeps ==> {
        let last = after.add[u.add.len() as int];
        last.x == nx && last.y == ny && last.z == nz && last.light == level
    }
}

/// A removal visit has the effect `rem_visit_effect`.
pub proof fn lemma_rem_visit_effect(u: SolverState, channel: int, e: LightEntry, i: int)
    requires
        u.world.wf(),
        is_channel(channel),
        0 <= i < 6,
    ensures
        rem_visit_effect(u, rem_visit(u, channel, e, i), channel, e, i),
{
    let (nx, ny, nz) = neighbor(e.x as int, e.y as int, e.z as int, i);
    u.world.lemma_with_level(nx, ny, nz, channel, 0);
    lemma_level_range(u.world, nx, ny, nz, channel);
    if u.world.in_world(nx, ny, nz) {
        u.world.lemma_slot(nx, ny, nz);
    }
}

} // verus!

verus! {

/// A removal visit keeps a world tidy and a state receding, and keeps the
/// entry that is being applied backed.
proof fn lemma_rem_visit_receding(
    u: SolverState,
    after: SolverState,
    blocks: BlockRegistry,
    channel: int,
    hole: Option<(int, int, int)>,
    e: LightEntry,
    i: int,
)
    requires
        rem_visit_effect(u, after, channel, e, i),
        is_channel(channel),
        0 <= i < 6,
        tidy(u.world, blocks, channel),
        receding(u, blocks, channel, hole),
        forall|j: int| 0 <= j < 6 ==> entry_backed(u.world, channel, e, j),
    ensures
        tidy(after.world, blocks, channel),
        receding(after, blocks, channel, hole),
        forall|j: int| 0 <= j < 6 ==> entry_backed(after.world, channel, e, j),
{
    let (nx, ny, nz) = neighbor(e.x as int, e.y as int, e.z as int, i);
    let level = u.world.level_at(nx, ny, nz, channel);
    let dims = u.world.in_world(nx, ny, nz) && level != 0 && level == e.light - 1;
    assert forall|x: int, y: int, z: int| #[trigger]
        after.world.level_at(x, y, z, channel) == 0 || after.world.level_at(x, y, z, channel)
            == u.world.level_at(x, y, z, channel) by {
        assert(after.world.level_at(x, y, z, channel) == if dims && x == nx && y == ny && z == nz {
            0
        } else {
            u.world.level_at(x, y, z, channel)
        });
    }
    assert forall|x: int, y: int, z: int|
        after.world.in_world(x, y, z) && !blocks.passes_light(
            after.world.block_at(x, y, z)->0,
        ) implies #[trigger] after.world.level_at(x, y, z, channel) == 0 by {
        assert(after.world.block_at(x, y, z) == u.world.block_at(x, y, z));
        assert(after.world.in_world(x, y, z) == u.world.in_world(x, y, z));
        assert(u.world.level_at(x, y, z, channel) == 0);
    }
    assert forall|x: int, y: int, z: int, j: int| 0 <= j < 6 implies #[trigger] fading_at(
        after.world,
        blocks,
        channel,
        hole,
        x,
        y,
        z,
        j,
    ) by {
        let (mx, my, mz) = neighbor(x, y, z, j);
        assert(fading_at(u.world, blocks, channel, hole, x, y, z, j));
        assert(after.world.block_at(mx, my, mz) == u.world.block_at(mx, my, mz));
        assert(after.world.in_world(mx, my, mz) == u.world.in_world(mx, my, mz));
        assert(after.world.level_at(mx, my, mz, channel) == 0 || after.world.level_at(
            mx,
            my,
            mz,
            channel,
        ) == u.world.level_at(mx, my, mz, channel));
        assert(after.world.level_at(x, y, z, channel) == 0 || after.world.level_at(
            x,
            y,
            z,
            channel,
        ) == u.world.level_at(x, y, z, channel));
        lemma_level_range(after.world, mx, my, mz, channel);
    }
    assert forall|j: int| 0 <= j < 6 implies entry_backed(after.world, channel, e, j) by {
        assert(entry_backed(u.world, channel, e, j));
        let (mx, my, mz) = neighbor(e.x as int, e.y as int, e.z as int, j);
        assert(after.world.level_at(mx, my, mz, channel) == 0 || after.world.level_at(
            mx,
            my,
            mz,
            channel,
        ) == u.world.level_at(mx, my, mz, channel));
    }
    assert forall|k: int, j: int| 0 <= k < after.rem.len() && 0 <= j < 6 implies #[trigger]
        entry_backed(after.world, channel, after.rem[k], j) by {
        let r = after.rem[k];
        let (mx, my, mz) = neighbor(r.x as int, r.y as int, r.z as int, j);
        assert(after.world.level_at(mx, my, mz, channel) == 0 || after.world.level_at(
            mx,
            my,
            mz,
            channel,
        ) == u.world.level_at(mx, my, mz, channel));
        if k < u.rem.len() {
            assert(after.rem[k] == u.rem[k]);
            assert(entry_backed(u.world, channel, u.rem[k], j));
        } else {
            // the new entry stands for the visited neighbour and carries its level
            assert(r.x == nx && r.y == ny && r.z == nz && r.light == level);
            assert(fading_at(u.world, blocks, channel, hole, nx, ny, nz, j));
            if u.world.in_world(mx, my, mz) {
                if !blocks.passes_light(u.world.block_at(mx, my, mz)->0) {
                    assert(u.world.level_at(mx, my, mz, channel) == 0);
                }
            }
        }
    }
    match hole {
        Some((hx, hy, hz)) => {
            assert(after.world.level_at(hx, hy, hz, channel) == 0 || after.world.level_at(
                hx,
                hy,
                hz,
                channel,
            ) == u.world.level_at(hx, hy, hz, channel));
        },
        None => {},
    }
}

/// A removal visit keeps what `calm_mid` says of one voxel and moves it one
/// neighbour on.
proof fn lemma_rem_visit_settling_at(
    u: SolverState,
    after: SolverState,
    blocks: BlockRegistry,
    channel: int,
    hole: Option<(int, int, int)>,
    e: LightEntry,
    i: int,
    x: int,
    y: int,
    z: int,
)
    requires
        rem_visit_effect(u, after, channel, e, i),
        is_channel(channel),
        0 <= i < 6,
        1 <= e.light,
        entry_backed(u.world, channel, e, i),
        settling_mid_at(u, blocks, channel, hole, e, i, x, y, z),
    ensures
        settling_mid_at(after, blocks, channel, hole, e, i + 1, x, y, z),
{
    let next = i + 1;
    let (nx, ny, nz) = neighbor(e.x as int, e.y as int, e.z as int, i);
    let level = u.world.level_at(nx, ny, nz, channel);
    let inside = u.world.in_world(nx, ny, nz);
    let dims = inside && level != 0 && level == e.light - 1;
    let keeps = inside && !dims && level >= e.light;
    assert(after.world.level_at(x, y, z, channel) == if dims && x == nx && y == ny && z == nz {
        0
    } else {
        u.world.level_at(x, y, z, channel)
    });
    if x == nx && y == ny && z == nz {
        if keeps {
            let k = u.add.len() as int;
            assert(after.add[k].x == x && after.add[k].y == y && after.add[k].z == z);
            assert(queued(after, channel, x, y, z));
        } else {
            assert(after.world.level_at(x, y, z, channel) == 0) by {
                if !inside {
                } else if !dims {
                    assert(level == 0);
                }
            }
            assert forall|j: int| 0 <= j < 6 implies excused_mid_at(
                after,
                blocks,
                channel,
                hole,
                e,
                next,
                x,
                y,
                z,
                j,
            ) by {
                let (mx, my, mz) = neighbor(x, y, z, j);
                lemma_level_range(after.world, mx, my, mz, channel);
                assert(gentle_at(after.world, blocks, channel, hole, x, y, z, j));
            }
        }
    } else if queued(u, channel, x, y, z) {
        let k = choose|k: int|
            0 <= k < u.add.len() && (#[trigger] u.add[k]).x == x && u.add[k].y == y && u.add[k].z
                == z && u.add[k].light == u.world.level_at(x, y, z, channel);
        assert(after.add[k] == u.add[k]);
        assert(queued(after, channel, x, y, z));
    } else {
        assert forall|j: int| 0 <= j < 6 implies excused_mid_at(
            after,
            blocks,
            channel,
            hole,
            e,
            next,
            x,
            y,
            z,
            j,
        ) by {
            let (mx, my, mz) = neighbor(x, y, z, j);
            assert(excused_mid_at(u, blocks, channel, hole, e, i, x, y, z, j));
            assert(after.world.block_at(mx, my, mz) == u.world.block_at(mx, my, mz));
            assert(after.world.in_world(mx, my, mz) == u.world.in_world(mx, my, mz));
            assert(after.world.level_at(mx, my, mz, channel) == if dims && mx == nx && my == ny
                && mz == nz {
                0
            } else {
                u.world.level_at(mx, my, mz, channel)
            });
            if pending(u, mx, my, mz) {
                let k = choose|k: int|
                    0 <= k < u.rem.len() && (#[trigger] u.rem[k]).x == mx && u.rem[k].y == my
                        && u.rem[k].z == mz;
                assert(after.rem[k] == u.rem[k]);
                assert(pending(after, mx, my, mz));
            } else if gentle_at(u.world, blocks, channel, hole, x, y, z, j) {
                if dims && mx == nx && my == ny && mz == nz {
                    let k = u.rem.len() as int;
                    assert(after.rem[k].x == mx && after.rem[k].y == my && after.rem[k].z == mz);
                    assert(pending(after, mx, my, mz));
                } else {
                    assert(gentle_at(after.world, blocks, channel, hole, x, y, z, j));
                }
            } else {
                // the neighbour is the voxel of the entry, and (x, y, z) is
                // one of its neighbours that has not been visited
                lemma_opposite(x, y, z, j);
                assert(opposite(j) != i);
            }
        }
    }
}

/// A removal visit keeps `calm_mid` and moves it one neighbour on.
proof fn lemma_rem_visit_calm(
    u: SolverState,
    origin: WorldView,
    blocks: BlockRegistry,
    channel: int,
    hole: Option<(int, int, int)>,
    e: LightEntry,
    i: int,
)
    requires
        calm_mid(u, origin, blocks, channel, hole, e, i),
        is_channel(channel),
        0 <= i < 6,
    ensures
        calm_mid(rem_visit(u, channel, e, i), origin, blocks, channel, hole, e, i + 1),
{
    let after = rem_visit(u, channel, e, i);
    lemma_rem_visit_based(u, origin, channel, e, i);
    lemma_rem_visit_effect(u, channel, e, i);
    lemma_rem_visit_receding(u, after, blocks, channel, hole, e, i);
    assert(entry_backed(u.world, channel, e, i));
    assert forall|x: int, y: int, z: int| #[trigger]
        settling_mid_at(after, blocks, channel, hole, e, i + 1, x, y, z) by {
        assert(settling_mid_at(u, blocks, channel, hole, e, i, x, y, z));
        lemma_rem_visit_settling_at(u, after, blocks, channel, hole, e, i, x, y, z);
    }
}

/// Taking the oldest removal entry off its queue turns a calm state into
/// one that is calm in the middle of the step which applies the entry.
proof fn lemma_pop_rem_calm(
    u: SolverState,
    origin: WorldView,
    blocks: BlockRegistry,
    channel: int,
    hole: Option<(int, int, int)>,
)
    requires
        calm(u, origin, blocks, channel, hole),
        u.rem.len() > 0,
    ensures
        calm_mid(popped_rem(u), origin, blocks, channel, hole, u.rem[0], 0),
{
    let rest = popped_rem(u);
    let e = u.rem[0];
    assert forall|k: int| 0 <= k < rest.rem.len() implies 1 <= (#[trigger] rest.rem[k]).light
        <= 15 by {
        assert(rest.rem[k] == u.rem[k + 1]);
    }
    assert forall|k: int, j: int| 0 <= k < rest.rem.len() && 0 <= j < 6 implies #[trigger]
        entry_backed(rest.world, channel, rest.rem[k], j) by {
        assert(rest.rem[k] == u.rem[k + 1]);
        assert(entry_backed(u.world, channel, u.rem[k + 1], j));
    }
    assert forall|j: int| 0 <= j < 6 implies entry_backed(rest.world, channel, e, j) by {
        assert(entry_backed(u.world, channel, u.rem[0], j));
    }
    assert forall|x: int, y: int, z: int| #[trigger]
        settling_mid_at(rest, blocks, channel, hole, e, 0, x, y, z) by {
        assert(excused(u, blocks, channel, hole, x, y, z) || queued(u, channel, x, y, z));
        if queued(u, channel, x, y, z) {
            let k = choose|k: int|
                0 <= k < u.add.len() && (#[trigger] u.add[k]).x == x && u.add[k].y == y
                    && u.add[k].z == z && u.add[k].light == u.world.level_at(x, y, z, channel);
            assert(rest.add[k] == u.add[k]);
            assert(queued(rest, channel, x, y, z));
        } else {
            assert forall|j: int| 0 <= j < 6 implies excused_mid_at(
                rest,
                blocks,
                channel,
                hole,
                e,
                0,
                x,
                y,
                z,
                j,
            ) by {
                let (mx, my, mz) = neighbor(x, y, z, j);
                assert(excused_at(u, blocks, channel, hole, x, y, z, j));
                lemma_opposite(x, y, z, j);
                if !gentle_at(u.world, blocks, channel, hole, x, y, z, j) {
                    let k = choose|k: int|
                        0 <= k < u.rem.len() && (#[trigger] u.rem[k]).x == mx && u.rem[k].y == my
                            && u.rem[k].z == mz;
                    if k > 0 {
                        assert(rest.rem[k - 1] == u.rem[k]);
                        assert(pending(rest, mx, my, mz));
                    }
                }
            }
        }
    }
}

/// Without queued removals, a state is settling exactly if every voxel is
/// gentle or queued.
pub proof fn lemma_settling_gentle(
    u: SolverState,
    blocks: BlockRegistry,
    channel: int,
    hole: Option<(int, int, int)>,
)
    requires
        u.rem.len() == 0,
    ensures
        settling(u, blocks, channel, hole) == gentle_or_queued(u, blocks, channel, hole),
{
    if settling(u, blocks, channel, hole) {
        assert forall|x: int, y: int, z: int| #[trigger]
            gentle_upto(u.world, blocks, channel, hole, x, y, z, 6) || queued(
                u,
                channel,
                x,
                y,
                z,
            ) by {
            assert(excused(u, blocks, channel, hole, x, y, z) || queued(u, channel, x, y, z));
            if excused(u, blocks, channel, hole, x, y, z) {
                assert forall|j: int| 0 <= j < 6 implies gentle_at(
                    u.world,
                    blocks,
                    channel,
                    hole,
                    x,
                    y,
                    z,
                    j,
                ) by {
                    assert(excused_at(u, blocks, channel, hole, x, y, z, j));
                }
            }
        }
    }
    if gentle_or_queued(u, blocks, channel, hole) {
        assert forall|x: int, y: int, z: int| #[trigger]
            excused(u, blocks, channel, hole, x, y, z) || queued(u, channel, x, y, z) by {
            assert(gentle_upto(u.world, blocks, channel, hole, x, y, z, 6) || queued(
                u,
                channel,
                x,
                y,
                z,
            ));
        }
    }
}

/// An addition visit keeps a world tidy: light enters only voxels that let
/// light pass.
proof fn lemma_add_visit_tidy(
    u: SolverState,
    blocks: BlockRegistry,
    channel: int,
    e: LightEntry,
    i: int,
)
    requires
        u.world.wf(),
        is_channel(channel),
        1 <= e.light <= 15,
        0 <= i < 6,
        tidy(u.world, blocks, channel),
    ensures
        tidy(add_visit(u, blocks, channel, e, i).world, blocks, channel),
{
    let after = add_visit(u, blocks, channel, e, i);
    lemma_add_visit_effect(u, blocks, channel, e, i);
    let (nx, ny, nz) = neighbor(e.x as int, e.y as int, e.z as int, i);
    assert forall|x: int, y: int, z: int|
        after.world.in_world(x, y, z) && !blocks.passes_light(
            after.world.block_at(x, y, z)->0,
        ) implies #[trigger] after.world.level_at(x, y, z, channel) == 0 by {
        assert(after.world.block_at(x, y, z) == u.world.block_at(x, y, z));
        assert(after.world.in_world(x, y, z) == u.world.in_world(x, y, z));
        assert(u.world.level_at(x, y, z, channel) == 0);
    }
}

/// Propagation keeps a tidy world attenuated. From a calm state, where
/// every lit voxel is gentle towards its neighbours unless it or the
/// neighbour is queued, the solved world is tidy and attenuated.
pub proof fn lemma_solved_calm(
    s: SolverState,
    blocks: BlockRegistry,
    channel: int,
    hole: Option<(int, int, int)>,
)
    requires
        is_channel(channel),
        calm(s, s.world, blocks, channel, hole),
    ensures
        attenuated_but(solved(s, blocks, channel).world, blocks, channel, hole),
        tidy(solved(s, blocks, channel).world, blocks, channel),
        based(solved(s, blocks, channel), s.world, channel),
{
    let origin = s.world;
    let inv = |u: SolverState| calm(u, origin, blocks, channel, hole);
    let mid_rem = |u: SolverState, e: LightEntry, i: int|
        calm_mid(u, origin, blocks, channel, hole, e, i);
    let mid_add = |u: SolverState, e: LightEntry, i: int|
        based(u, origin, channel) && tidy(u.world, blocks, channel) && u.rem.len() == 0 && 2
            <= e.light <= 15 && gentle_midway(u, blocks, channel, hole, e, i);
    assert(step_invariant(inv, mid_rem, mid_add, blocks, channel)) by {
        assert forall|u: SolverState| #[trigger] inv(u) && u.rem.len() > 0 implies mid_rem(
            popped_rem(u),
            u.rem[0],
            0,
        ) by {
            lemma_pop_rem_calm(u, origin, blocks, channel, hole);
        }
        assert forall|u: SolverState, e: LightEntry, i: int| 0 <= i < 6 && #[trigger] mid_rem(
            u,
            e,
            i,
        ) implies mid_rem(rem_visit(u, channel, e, i), e, i + 1) by {
            lemma_rem_visit_calm(u, origin, blocks, channel, hole, e, i);
        }
        assert forall|u: SolverState, e: LightEntry| #[trigger] mid_rem(u, e, 6) implies inv(u) by {
            assert forall|x: int, y: int, z: int| #[trigger]
                excused(u, blocks, channel, hole, x, y, z) || queued(u, channel, x, y, z) by {
                assert(settling_mid_at(u, blocks, channel, hole, e, 6, x, y, z));
                if !queued(u, channel, x, y, z) {
                    assert forall|j: int| 0 <= j < 6 implies excused_at(
                        u,
                        blocks,
                        channel,
                        hole,
                        x,
                        y,
                        z,
                        j,
                    ) by {
                        assert(excused_mid_at(u, blocks, channel, hole, e, 6, x, y, z, j));
                        lemma_opposite(x, y, z, j);
                    }
                }
            }
        }
        assert forall|u: SolverState| #[trigger]
            inv(u) && u.rem.len() == 0 && u.add.len() > 0 && u.add[0].light <= 1 implies inv(
            popped_add(u),
        ) by {
            lemma_settling_gentle(u, blocks, channel, hole);
            lemma_pop_gentle(u, blocks, channel, hole);
            lemma_pop_based(u, origin, channel);
            lemma_settling_gentle(popped_add(u), blocks, channel, hole);
        }
        assert forall|u: SolverState| #[trigger]
            inv(u) && u.rem.len() == 0 && u.add.len() > 0 && u.add[0].light > 1 implies mid_add(
            popped_add(u),
            u.add[0],
            0,
        ) by {
            lemma_settling_gentle(u, blocks, channel, hole);
            lemma_pop_gentle(u, blocks, channel, hole);
            lemma_pop_based(u, origin, channel);
        }
        assert forall|u: SolverState, e: LightEntry, i: int| 0 <= i < 6 && #[trigger] mid_add(
            u,
            e,
            i,
        ) implies mid_add(add_visit(u, blocks, channel, e, i), e, i + 1) by {
            lemma_add_visit_based(u, origin, blocks, channel, e, i);
            lemma_add_visit_gentle(u, blocks, channel, hole, e, i);
            lemma_add_visit_tidy(u, blocks, channel, e, i);
        }
        assert forall|u: SolverState, e: LightEntry| #[trigger] mid_add(u, e, 6) implies inv(u) by {
            assert(gentle_or_queued(u, blocks, channel, hole)) by {
                assert forall|x: int, y: int, z: int| #[trigger]
                    gentle_upto(u.world, blocks, channel, hole, x, y, z, 6) || queued(
                        u,
                        channel,
                        x,
                        y,
                        z,
                    ) by {
                    assert(gentle_upto(u.world, blocks, channel, hole, x, y, z, 6) || queued(
                        u,
                        channel,
                        x,
                        y,
                        z,
                    ) || (x == e.x && y == e.y && z == e.z && u.world.level_at(x, y, z, channel)
                        == e.light && gentle_upto(u.world, blocks, channel, hole, x, y, z, 6)));
                }
            }
            lemma_settling_gentle(u, blocks, channel, hole);
        }
    }
    lemma_solved_keeps(inv, mid_rem, mid_add, blocks, channel, s);
    lemma_solved_settled(s, blocks, channel);
    let end = solved(s, blocks, channel);
    lemma_settling_gentle(end, blocks, channel, hole);
    assert forall|x: int, y: int, z: int| #[trigger]
        gentle_upto(end.world, blocks, channel, hole, x, y, z, 6) by {
        assert(gentle_upto(end.world, blocks, channel, hole, x, y, z, 6) || queued(
            end,
            channel,
            x,
            y,
            z,
        ));
    }
}

} // verus!
