//! Laws of the light that `on_world_loaded` builds up.

use vstd::prelude::*;
use crate::lighting::{Seeds, adding, dark_beside, emission_of, emit_all, emit_layer, emit_row,
    emitter_seeded, seed_all, seed_column, seed_row, sky_all, sky_column, sky_row, world_lit};
use crate::lighting::laws::{attenuated, based, gentle_at, gentle_or_queued, gentle_upto,
    lemma_level_range, lemma_solved_attenuated, lemma_solved_framed, lemma_solved_keeps,
    lemma_solved_settled, queued, step_invariant, framed};
use crate::lighting::light_solver::{LightEntry, SolverState, add_visit, idle, levels_within,
    neighbor, popped_add, queues_wf, seeded, settled, solved};
use crate::lighting::lightmap::{is_channel};
use crate::voxels::BlockRegistry;
use crate::voxels::world::WorldView;

verus! {

/// Whether two worlds have the same extent, the same block ids and the same
/// levels in `channel`.
pub open spec fn agree(a: WorldView, b: WorldView, channel: int) -> bool {
    &&& a.same_blocks(b)
    &&& forall|x: int, y: int, z: int| #[trigger]
        a.level_at(x, y, z, channel) == b.level_at(x, y, z, channel)
}

/// Whether `longer` starts with the entries of `shorter`.
pub open spec fn extends(longer: Seq<LightEntry>, shorter: Seq<LightEntry>) -> bool {
    &&& shorter.len() <= longer.len()
    &&& forall|k: int| 0 <= k < shorter.len() ==> #[trigger] longer[k] == shorter[k]
}

/// Whether every voxel that is lit in `channel` waits in `queue` with its
/// level.
pub open spec fn lit_is_queued(world: WorldView, queue: Seq<LightEntry>, channel: int) -> bool {
    forall|x: int, y: int, z: int| #[trigger]
        world.level_at(x, y, z, channel) == 0 || queued(adding(world, queue), channel, x, y, z)
}

/// What a request to light a voxel does, read through positions: block ids
/// and the other channels stay; the level of the voxel becomes the level
/// asked for if that exceeds 1 and the voxel lies in the world, and no other
/// level changes; in that case the voxel is queued with its new level behind
/// the entries already waiting.
pub open spec fn seed_effect(
    u: SolverState,
    after: SolverState,
    channel: int,
    x: int,
    y: int,
    z: int,
    level: int,
) -> bool {
    let lights = level > 1 && u.world.in_world(x, y, z);
    &&& after.world.wf()
    &&& after.world.same_blocks(u.world)
    &&& after.rem == u.rem
    &&& forall|qx: int, qy: int, qz: int, c: int|
        is_channel(c) ==> #[trigger] after.world.level_at(qx, qy, qz, c) == if lights && qx == x
            && qy == y && qz == z && c == channel {
            level
        } else {
            u.world.level_at(qx, qy, qz, c)
        }
    &&& extends(after.add, u.add)
    &&& after.add.len() == u.add.len() + if lights {
        1int
    } else {
        0int
    }
    &&& lights ==> {
        let last = after.add[u.add.len() as int];
        last.x == x && last.y == y && last.z == z && last.light == level
    }
}

/// A request to light a voxel at an explicit level has the effect
/// `seed_effect`.
pub proof fn lemma_seeded_effect(u: SolverState, channel: int, x: int, y: int, z: int, level: int)
    requires
        u.world.wf(),
        is_channel(channel),
        level <= 15,
    ensures
        seed_effect(u, seeded(u, channel, x, y, z, Some(level)), channel, x, y, z, level),
{
    if level > 1 {
        u.world.lemma_with_level(x, y, z, channel, level);
        if u.world.in_world(x, y, z) {
            u.world.lemma_slot(x, y, z);
        }
    }
}

/// A request to a voxel to spread its stored level has the effect
/// `seed_effect` for that level.
pub proof fn lemma_reseeded_effect(u: SolverState, channel: int, x: int, y: int, z: int)
    requires
        u.world.wf(),
        is_channel(channel),
    ensures
        seed_effect(
            u,
            seeded(u, channel, x, y, z, None),
            channel,
            x,
            y,
            z,
            u.world.level_at(x, y, z, channel),
        ),
{
    let level = u.world.level_at(x, y, z, channel);
    lemma_level_range(u.world, x, y, z, channel);
    if level > 1 {
        u.world.lemma_with_level(x, y, z, channel, level);
        if u.world.in_world(x, y, z) {
            u.world.lemma_slot(x, y, z);
        }
    }
}

/// A seeding in `channel` keeps `lit_is_queued` for that channel and keeps
/// the queue within the light levels.
proof fn lemma_seed_keeps_lit_queued(
    u: SolverState,
    after: SolverState,
    channel: int,
    x: int,
    y: int,
    z: int,
    level: int,
)
    requires
        seed_effect(u, after, channel, x, y, z, level),
        is_channel(channel),
        0 <= level <= 15,
        levels_within(u.add, 0),
    ensures
        lit_is_queued(u.world, u.add, channel) ==> lit_is_queued(after.world, after.add, channel),
        levels_within(after.add, 0),
{
    let lights = level > 1 && u.world.in_world(x, y, z);
    assert forall|k: int| 0 <= k < after.add.len() implies 0 <= (#[trigger] after.add[k]).light
        <= 15 by {
        if k < u.add.len() {
            assert(after.add[k] == u.add[k]);
        }
    }
    if lit_is_queued(u.world, u.add, channel) {
        assert forall|qx: int, qy: int, qz: int| #[trigger]
            after.world.level_at(qx, qy, qz, channel) == 0 || queued(
                adding(after.world, after.add),
                channel,
                qx,
                qy,
                qz,
            ) by {
            assert(after.world.level_at(qx, qy, qz, channel) == if lights && qx == x && qy == y
                && qz
                == z {
                level
            } else {
                u.world.level_at(qx, qy, qz, channel)
            });
            if lights && qx == x && qy == y && qz == z {
                let k = u.add.len() as int;
                assert(adding(after.world, after.add).add[k].x == qx);
            } else {
                assert(u.world.level_at(qx, qy, qz, channel) == 0 || queued(
                    adding(u.world, u.add),
                    channel,
                    qx,
                    qy,
                    qz,
                ));
                if u.world.level_at(qx, qy, qz, channel) != 0 {
                    let k = choose|k: int|
                        0 <= k < u.add.len() && (#[trigger] adding(u.world, u.add).add[k]).x == qx
                            && adding(u.world, u.add).add[k].y == qy && adding(u.world,
                                u.add).add[k].z
                            == qz && adding(u.world, u.add).add[k].light == u.world.level_at(
                            qx,
                            qy,
                            qz,
                            channel,
                        );
                    assert(after.add[k] == u.add[k]);
                    assert(adding(after.world, after.add).add[k].x == qx);
                }
            }
        }
    }
}

/// A change of the world that leaves `channel` alone keeps `lit_is_queued`
/// for that channel.
proof fn lemma_lit_queued_transfer(
    before: WorldView,
    after: WorldView,
    queue: Seq<LightEntry>,
    channel: int,
)
    requires
        forall|x: int, y: int, z: int| #[trigger]
            after.level_at(x, y, z, channel) == before.level_at(x, y, z, channel),
    ensures
        lit_is_queued(before, queue, channel) ==> lit_is_queued(after, queue, channel),
{
    if lit_is_queued(before, queue, channel) {
        assert forall|x: int, y: int, z: int| #[trigger]
            after.level_at(x, y, z, channel) == 0 || queued(
                adding(after, queue),
                channel,
                x,
                y,
                z,
            ) by {
            assert(before.level_at(x, y, z, channel) == 0 || queued(
                adding(before, queue),
                channel,
                x,
                y,
                z,
            ));
            if before.level_at(x, y, z, channel) != 0 {
                let k = choose|k: int|
                    0 <= k < queue.len() && (#[trigger] adding(before, queue).add[k]).x == x
                        && adding(
                        before,
                        queue,
                    ).add[k].y == y && adding(before, queue).add[k].z == z && adding(
                        before,
                        queue,
                    ).add[k].light == before.level_at(x, y, z, channel);
                assert(adding(after, queue).add[k].x == x);
            }
        }
    }
}

/// Property of the seeds while the emitters are collected: the world is
/// well formed and has the block ids and the sky light of `origin`, and the
/// colour queues hold light levels only. If `strict`, then moreover in every
/// colour channel each lit voxel waits in the channel's queue.
pub open spec fn seeds_sound(s: Seeds, origin: WorldView, strict: bool) -> bool {
    &&& s.world.wf()
    &&& agree(s.world, origin, 3)
    &&& strict ==> lit_is_queued(s.world, s.red, 0)
    &&& strict ==> lit_is_queued(s.world, s.green, 1)
    &&& strict ==> lit_is_queued(s.world, s.blue, 2)
    &&& levels_within(s.red, 0)
    &&& levels_within(s.green, 0)
    &&& levels_within(s.blue, 0)
}

/// Emission of a registered block is a light level.
proof fn lemma_emission_range(blocks: BlockRegistry, id: u8, channel: int)
    requires
        blocks.wf(),
        0 <= channel < 3,
    ensures
        0 <= emission_of(blocks, id, channel) <= 15,
{
    if blocks.lookup(id) is Some {
        let b = blocks.blocks@[id as int];
        assert(b->0.wf());
    }
}

/// Visiting one voxel keeps the seeds sound.
proof fn lemma_emitter_seeded_sound(
    s: Seeds,
    origin: WorldView,
    strict: bool,
    blocks: BlockRegistry,
    x: int,
    y: int,
    z: int,
)
    requires
        seeds_sound(s, origin, strict),
        blocks.wf(),
    ensures
        seeds_sound(emitter_seeded(s, blocks, x, y, z), origin, strict),
{
    if s.world.block_at(x, y, z) is Some {
        let id = s.world.block_at(x, y, z)->0;
        let er = emission_of(blocks, id, 0);
        let eg = emission_of(blocks, id, 1);
        let eb = emission_of(blocks, id, 2);
        lemma_emission_range(blocks, id, 0);
        lemma_emission_range(blocks, id, 1);
        lemma_emission_range(blocks, id, 2);
        let r0 = adding(s.world, s.red);
        let r = seeded(r0, 0, x, y, z, Some(er));
        lemma_seeded_effect(r0, 0, x, y, z, er);
        lemma_seed_keeps_lit_queued(r0, r, 0, x, y, z, er);
        let g0 = adding(r.world, s.green);
        lemma_lit_queued_transfer(s.world, r.world, s.green, 1);
        let g = seeded(g0, 1, x, y, z, Some(eg));
        lemma_seeded_effect(g0, 1, x, y, z, eg);
        lemma_seed_keeps_lit_queued(g0, g, 1, x, y, z, eg);
        let b0 = adding(g.world, s.blue);
        lemma_lit_queued_transfer(s.world, r.world, s.blue, 2);
        lemma_lit_queued_transfer(r.world, g.world, s.blue, 2);
        let b = seeded(b0, 2, x, y, z, Some(eb));
        lemma_seeded_effect(b0, 2, x, y, z, eb);
        lemma_seed_keeps_lit_queued(b0, b, 2, x, y, z, eb);
        lemma_lit_queued_transfer(r.world, g.world, r.add, 0);
        lemma_lit_queued_transfer(g.world, b.world, r.add, 0);
        lemma_lit_queued_transfer(g.world, b.world, g.add, 1);
        let out = emitter_seeded(s, blocks, x, y, z);
        assert(out.world == b.world);
        assert forall|qx: int, qy: int, qz: int| #[trigger]
            out.world.block_at(qx, qy, qz) == origin.block_at(qx, qy, qz) by {
            assert(b.world.block_at(qx, qy, qz) == g.world.block_at(qx, qy, qz));
            assert(g.world.block_at(qx, qy, qz) == r.world.block_at(qx, qy, qz));
            assert(r.world.block_at(qx, qy, qz) == s.world.block_at(qx, qy, qz));
        }
        assert forall|qx: int, qy: int, qz: int| #[trigger]
            out.world.level_at(qx, qy, qz, 3) == origin.level_at(qx, qy, qz, 3) by {
            assert(b.world.level_at(qx, qy, qz, 3) == g.world.level_at(qx, qy, qz, 3));
            assert(g.world.level_at(qx, qy, qz, 3) == r.world.level_at(qx, qy, qz, 3));
            assert(r.world.level_at(qx, qy, qz, 3) == s.world.level_at(qx, qy, qz, 3));
        }
    }
}

/// Visiting the voxels of a row keeps the seeds sound.
proof fn lemma_emit_row_sound(
    s: Seeds,
    origin: WorldView,
    strict: bool,
    blocks: BlockRegistry,
    y: int,
    z: int,
    n: int,
)
    requires
        seeds_sound(s, origin, strict),
        blocks.wf(),
    ensures
        seeds_sound(emit_row(s, blocks, y, z, n), origin, strict),
    decreases n,
{
    if n > 0 {
        lemma_emit_row_sound(s, origin, strict, blocks, y, z, n - 1);
        lemma_emitter_seeded_sound(
            emit_row(s, blocks, y, z, n - 1),
            origin,
            strict,
            blocks,
            n - 1,
            y,
            z,
        );
    }
}

/// Visiting the rows of a layer keeps the seeds sound.
proof fn lemma_emit_layer_sound(
    s: Seeds,
    origin: WorldView,
    strict: bool,
    blocks: BlockRegistry,
    width: int,
    y: int,
    n: int,
)
    requires
        seeds_sound(s, origin, strict),
        blocks.wf(),
    ensures
        seeds_sound(emit_layer(s, blocks, width, y, n), origin, strict),
    decreases n,
{
    if n > 0 {
        lemma_emit_layer_sound(s, origin, strict, blocks, width, y, n - 1);
        lemma_emit_row_sound(
            emit_layer(s, blocks, width, y, n - 1),
            origin,
            strict,
            blocks,
            y,
            n - 1,
            width,
        );
    }
}

/// Collecting the emitters of a world keeps the seeds sound.
pub proof fn lemma_emit_all_sound(
    s: Seeds,
    origin: WorldView,
    strict: bool,
    blocks: BlockRegistry,
    width: int,
    depth: int,
    n: int,
)
    requires
        seeds_sound(s, origin, strict),
        blocks.wf(),
    ensures
        seeds_sound(emit_all(s, blocks, width, depth, n), origin, strict),
    decreases n,
{
    if n > 0 {
        lemma_emit_all_sound(s, origin, strict, blocks, width, depth, n - 1);
        lemma_emit_layer_sound(
            emit_all(s, blocks, width, depth, n - 1),
            origin,
            strict,
            blocks,
            width,
            n - 1,
            depth,
        );
    }
}

} // verus!

verus! {

/// Whether the column (x, z) holds nothing but air from height `y` up to
/// height `top`.
pub open spec fn open_to(world: WorldView, x: int, y: int, z: int, top: int) -> bool {
    forall|h: int| y <= h <= top ==> #[trigger] world.block_at(x, h, z) == Some(0u8)
}

/// Whether the voxel at (x, y, z) lies in one of the first `columns`
/// columns of row `z`, at a height up to `top`, under open sky.
pub open spec fn sunlit_in_row(
    world: WorldView,
    x: int,
    y: int,
    z: int,
    row: int,
    columns: int,
    top: int,
) -> bool {
    z == row && 0 <= x < columns && 0 <= y <= top && open_to(world, x, y, z, top)
}

/// Whether the voxel at (x, y, z) lies in one of the first `rows` rows of
/// `width` columns, at a height up to `top`, under open sky.
pub open spec fn sunlit(
    world: WorldView,
    x: int,
    y: int,
    z: int,
    width: int,
    rows: int,
    top: int,
) -> bool {
    0 <= z < rows && 0 <= x < width && 0 <= y <= top && open_to(world, x, y, z, top)
}

/// Whether `after` is `before` with full sky light at the voxels picked by
/// `lit`, and otherwise the same levels and block ids.
pub open spec fn sky_filled(
    before: WorldView,
    after: WorldView,
    lit: spec_fn(int, int, int) -> bool,
) -> bool {
    &&& after.wf()
    &&& after.same_blocks(before)
    &&& forall|x: int, y: int, z: int, c: int|
        is_channel(c) ==> #[trigger] after.level_at(x, y, z, c) == if c == 3 && lit(x, y, z) {
            15
        } else {
            before.level_at(x, y, z, c)
        }
}

/// Filling a column with sky light lights exactly its open part.
pub proof fn lemma_sky_column(world: WorldView, x: int, z: int, top: int)
    requires
        world.wf(),
    ensures
        sky_filled(
            world,
            sky_column(world, x, z, top),
            |qx: int, qy: int, qz: int|
                qx == x && qz == z && 0 <= qy <= top && open_to(world, qx, qy, qz, top),
        ),
    decreases top + 1,
{
    let after = sky_column(world, x, z, top);
    let lit = |qx: int, qy: int, qz: int|
        qx == x && qz == z && 0 <= qy <= top && open_to(world, qx, qy, qz, top);
    if top < 0 {
    } else if world.block_at(x, top, z) == Some(0u8) {
        let first = world.with_level(x, top, z, 3, 15);
        world.lemma_with_level(x, top, z, 3, 15);
        lemma_sky_column(first, x, z, top - 1);
        let below = |qx: int, qy: int, qz: int|
            qx == x && qz == z && 0 <= qy <= top - 1 && open_to(first, qx, qy, qz, top - 1);
        assert(sky_filled(first, after, below));
        assert forall|qx: int, qy: int, qz: int| #[trigger]
            after.block_at(qx, qy, qz) == world.block_at(qx, qy, qz) by {
            assert(after.block_at(qx, qy, qz) == first.block_at(qx, qy, qz));
        }
        assert forall|qx: int, qy: int, qz: int, c: int| is_channel(c) implies #[trigger]
            after.level_at(qx, qy, qz, c) == if c == 3 && lit(qx, qy, qz) {
            15
        } else {
            world.level_at(qx, qy, qz, c)
        } by {
            assert(after.level_at(qx, qy, qz, c) == if c == 3 && below(qx, qy, qz) {
                15
            } else {
                first.level_at(qx, qy, qz, c)
            });
            if qx == x && qz == z && 0 <= qy <= top {
                if qy < top {
                    if open_to(first, qx, qy, qz, top - 1) {
                        assert forall|h: int| qy <= h <= top implies #[trigger] world.block_at(
                            qx,
                            h,
                            qz,
                        ) == Some(0u8) by {
                            if h < top {
                                assert(first.block_at(qx, h, qz) == Some(0u8));
                            }
                        }
                    }
                    if open_to(world, qx, qy, qz, top) {
                        assert forall|h: int| qy <= h <= top - 1 implies #[trigger] first.block_at(
                            qx,
                            h,
                            qz,
                        ) == Some(0u8) by {
                            assert(world.block_at(qx, h, qz) == Some(0u8));
                        }
                    }
                } else {
                    assert(open_to(world, qx, qy, qz, top));
                }
            }
        }
    } else {
        assert forall|qx: int, qy: int, qz: int, c: int| is_channel(c) implies #[trigger]
            after.level_at(qx, qy, qz, c) == if c == 3 && lit(qx, qy, qz) {
            15
        } else {
            world.level_at(qx, qy, qz, c)
        } by {
            if lit(qx, qy, qz) {
                assert(world.block_at(qx, top, qz) == Some(0u8));
            }
        }
    }
}

/// One filling after another is a filling of the union, when the second
/// picks its voxels by the same block ids.
proof fn lemma_sky_filled_chain(
    a: WorldView,
    b: WorldView,
    c: WorldView,
    first: spec_fn(int, int, int) -> bool,
    second: spec_fn(int, int, int) -> bool,
    both: spec_fn(int, int, int) -> bool,
)
    requires
        sky_filled(a, b, first),
        sky_filled(b, c, second),
        forall|x: int, y: int, z: int| #[trigger] both(x, y, z) == (first(x, y, z) || second(x, y,
            z)),
    ensures
        sky_filled(a, c, both),
{
    assert forall|x: int, y: int, z: int| #[trigger] c.block_at(x, y, z) == a.block_at(x, y, z) by {
        assert(c.block_at(x, y, z) == b.block_at(x, y, z));
    }
    assert forall|x: int, y: int, z: int, ch: int| is_channel(ch) implies #[trigger] c.level_at(
        x,
        y,
        z,
        ch,
    ) == if ch == 3 && both(x, y, z) {
        15
    } else {
        a.level_at(x, y, z, ch)
    } by {
        assert(c.level_at(x, y, z, ch) == if ch == 3 && second(x, y, z) {
            15
        } else {
            b.level_at(x, y, z, ch)
        });
        assert(b.level_at(x, y, z, ch) == if ch == 3 && first(x, y, z) {
            15
        } else {
            a.level_at(x, y, z, ch)
        });
        assert(both(x, y, z) == (first(x, y, z) || second(x, y, z)));
    }
}

/// Open sky is a matter of block ids alone.
proof fn lemma_open_to_same_blocks(a: WorldView, b: WorldView, x: int, y: int, z: int, top: int)
    requires
        a.same_blocks(b),
    ensures
        open_to(a, x, y, z, top) == open_to(b, x, y, z, top),
{
    if open_to(a, x, y, z, top) {
        assert forall|h: int| y <= h <= top implies #[trigger] b.block_at(x, h, z) == Some(0u8) by {
            assert(a.block_at(x, h, z) == Some(0u8));
        }
    }
    if open_to(b, x, y, z, top) {
        assert forall|h: int| y <= h <= top implies #[trigger] a.block_at(x, h, z) == Some(0u8) by {
            assert(b.block_at(x, h, z) == Some(0u8));
        }
    }
}

/// Filling the first `n` columns of a row lights exactly their open parts.
pub proof fn lemma_sky_row(world: WorldView, z: int, top: int, n: int)
    requires
        world.wf(),
    ensures
        sky_filled(
            world,
            sky_row(world, z, top, n),
            |qx: int, qy: int, qz: int| sunlit_in_row(world, qx, qy, qz, z, n, top),
        ),
    decreases n,
{
    let goal = |qx: int, qy: int, qz: int| sunlit_in_row(world, qx, qy, qz, z, n, top);
    if n > 0 {
        let before = sky_row(world, z, top, n - 1);
        lemma_sky_row(world, z, top, n - 1);
        lemma_sky_column(before, n - 1, z, top);
        let first = |qx: int, qy: int, qz: int| sunlit_in_row(world, qx, qy, qz, z, n - 1, top);
        let second = |qx: int, qy: int, qz: int|
            qx == n - 1 && qz == z && 0 <= qy <= top && open_to(before, qx, qy, qz, top);
        assert forall|x: int, y: int, z2: int| #[trigger] goal(x, y, z2) == (first(x, y, z2)
            || second(x, y, z2)) by {
            lemma_open_to_same_blocks(before, world, x, y, z2, top);
        }
        lemma_sky_filled_chain(world, before, sky_row(world, z, top, n), first, second, goal);
    } else {
        assert(sky_filled(world, world, goal));
    }
}

/// Filling the first `n` rows lights exactly the open parts of their
/// columns.
pub proof fn lemma_sky_all(world: WorldView, width: int, top: int, n: int)
    requires
        world.wf(),
    ensures
        sky_filled(
            world,
            sky_all(world, width, top, n),
            |qx: int, qy: int, qz: int| sunlit(world, qx, qy, qz, width, n, top),
        ),
    decreases n,
{
    let goal = |qx: int, qy: int, qz: int| sunlit(world, qx, qy, qz, width, n, top);
    if n > 0 {
        let before = sky_all(world, width, top, n - 1);
        lemma_sky_all(world, width, top, n - 1);
        lemma_sky_row(before, n - 1, top, width);
        let first = |qx: int, qy: int, qz: int| sunlit(world, qx, qy, qz, width, n - 1, top);
        let second = |qx: int, qy: int, qz: int|
            sunlit_in_row(before, qx, qy, qz, n - 1, width, top);
        assert forall|x: int, y: int, z: int| #[trigger] goal(x, y, z) == (first(x, y, z) || second(
            x,
            y,
            z,
        )) by {
            lemma_open_to_same_blocks(before, world, x, y, z, top);
        }
        lemma_sky_filled_chain(world, before, sky_all(world, width, top, n), first, second, goal);
    } else {
        assert(sky_filled(world, world, goal));
    }
}

} // verus!

verus! {

/// Whether two worlds have the same extent, block ids and light levels.
pub open spec fn same_light(a: WorldView, b: WorldView) -> bool {
    &&& a.same_blocks(b)
    &&& forall|x: int, y: int, z: int, c: int|
        is_channel(c) ==> #[trigger] a.level_at(x, y, z, c) == b.level_at(x, y, z, c)
}

/// Whether `after` is `before` with the voxels picked by `picked` queued in
/// the sky channel behind the entries already waiting, each with its level,
/// and with the same block ids and light levels.
pub open spec fn sky_seeded(
    before: SolverState,
    after: SolverState,
    picked: spec_fn(int, int, int) -> bool,
) -> bool {
    &&& after.world.wf()
    &&& same_light(after.world, before.world)
    &&& after.rem == before.rem
    &&& extends(after.add, before.add)
    &&& forall|k: int| before.add.len() <= k < after.add.len() ==> (#[trigger] after.add[k]).light
        <= 15
    &&& forall|x: int, y: int, z: int| picked(x, y, z) ==> #[trigger] queued(after, 3, x, y, z)
}

/// Whether the voxel at (x, y, z) is one that the search of a column for
/// sky seeds picks: under open sky, lit above level 1 and beside a dark
/// voxel.
pub open spec fn sky_seed(world: WorldView, x: int, y: int, z: int, top: int) -> bool {
    0 <= y <= top && open_to(world, x, y, z, top) && dark_beside(world, x, y, z) && world.level_at(
        x,
        y,
        z,
        3,
    ) > 1
}

/// Whether a voxel beside a dark one is a matter of sky levels alone, and
/// open sky a matter of block ids alone.
proof fn lemma_sky_seed_same_light(a: WorldView, b: WorldView, x: int, y: int, z: int, top: int)
    requires
        same_light(a, b),
    ensures
        sky_seed(a, x, y, z, top) == sky_seed(b, x, y, z, top),
{
    lemma_open_to_same_blocks(a, b, x, y, z, top);
    assert(a.level_at(x, y, z, 3) == b.level_at(x, y, z, 3));
    assert(a.level_at(x - 1, y, z, 3) == b.level_at(x - 1, y, z, 3));
    assert(a.level_at(x + 1, y, z, 3) == b.level_at(x + 1, y, z, 3));
    assert(a.level_at(x, y - 1, z, 3) == b.level_at(x, y - 1, z, 3));
    assert(a.level_at(x, y + 1, z, 3) == b.level_at(x, y + 1, z, 3));
    assert(a.level_at(x, y, z - 1, 3) == b.level_at(x, y, z - 1, 3));
    assert(a.level_at(x, y, z + 1, 3) == b.level_at(x, y, z + 1, 3));
}

/// One search after another queues the union of what they pick.
proof fn lemma_sky_seeded_chain(
    a: SolverState,
    b: SolverState,
    c: SolverState,
    first: spec_fn(int, int, int) -> bool,
    second: spec_fn(int, int, int) -> bool,
    both: spec_fn(int, int, int) -> bool,
)
    requires
        sky_seeded(a, b, first),
        sky_seeded(b, c, second),
        forall|x: int, y: int, z: int| #[trigger] both(x, y, z) == (first(x, y, z) || second(x, y,
            z)),
    ensures
        sky_seeded(a, c, both),
{
    assert forall|x: int, y: int, z: int| #[trigger]
        c.world.block_at(x, y, z) == a.world.block_at(x, y, z) by {
        assert(c.world.block_at(x, y, z) == b.world.block_at(x, y, z));
    }
    assert forall|x: int, y: int, z: int, ch: int| is_channel(ch) implies #[trigger]
        c.world.level_at(x, y, z, ch) == a.world.level_at(x, y, z, ch) by {
        assert(c.world.level_at(x, y, z, ch) == b.world.level_at(x, y, z, ch));
    }
    assert forall|k: int| 0 <= k < a.add.len() implies #[trigger] c.add[k] == a.add[k] by {
        assert(b.add[k] == a.add[k]);
        assert(c.add[k] == b.add[k]);
    }
    assert forall|k: int| a.add.len() <= k < c.add.len() implies (#[trigger] c.add[k]).light
        <= 15 by {
        if k < b.add.len() {
            assert(c.add[k] == b.add[k]);
        }
    }
    assert forall|x: int, y: int, z: int| both(x, y, z) implies #[trigger] queued(c, 3, x, y,
        z) by {
        assert(both(x, y, z) == (first(x, y, z) || second(x, y, z)));
        if !second(x, y, z) {
            assert(first(x, y, z));
            assert(queued(b, 3, x, y, z));
            let k = choose|k: int|
                0 <= k < b.add.len() && (#[trigger] b.add[k]).x == x && b.add[k].y == y
                    && b.add[k].z
                    == z && b.add[k].light == b.world.level_at(x, y, z, 3);
            assert(c.add[k] == b.add[k]);
            assert(c.world.level_at(x, y, z, 3) == b.world.level_at(x, y, z, 3));
        }
    }
}

/// The search of a column queues every sky seed of the column.
pub proof fn lemma_seed_column(s: SolverState, x: int, z: int, top: int)
    requires
        s.world.wf(),
    ensures
        sky_seeded(
            s,
            seed_column(s, x, z, top),
            |qx: int, qy: int, qz: int| qx == x && qz == z && sky_seed(s.world, qx, qy, qz, top),
        ),
    decreases top + 1,
{
    let after = seed_column(s, x, z, top);
    let goal = |qx: int, qy: int, qz: int| qx == x && qz == z && sky_seed(s.world, qx, qy, qz, top);
    if top >= 0 && s.world.block_at(x, top, z) == Some(0u8) {
        let next = if dark_beside(s.world, x, top, z) {
            seeded(s, 3, x, top, z, None)
        } else {
            s
        };
        let level = s.world.level_at(x, top, z, 3);
        lemma_reseeded_effect(s, 3, x, top, z);
        let first = |qx: int, qy: int, qz: int|
            qx == x && qz == z && qy == top && dark_beside(s.world, qx, qy, qz) && level > 1;
        assert(sky_seeded(s, next, first)) by {
            if dark_beside(s.world, x, top, z) {
                lemma_level_range(s.world, x, top, z, 3);
                assert forall|qx: int, qy: int, qz: int| first(qx, qy, qz)
                    implies #[trigger] queued(
                    next,
                    3,
                    qx,
                    qy,
                    qz,
                ) by {
                    let k = s.add.len() as int;
                    assert(next.add[k].x == x);
                    assert(next.world.level_at(x, top, z, 3) == level);
                }
            }
        }
        lemma_seed_column(next, x, z, top - 1);
        let second = |qx: int, qy: int, qz: int|
            qx == x && qz == z && sky_seed(next.world, qx, qy, qz, top - 1);
        assert forall|qx: int, qy: int, qz: int| #[trigger] goal(qx, qy, qz) == (first(qx, qy, qz)
            || second(qx, qy, qz)) by {
            lemma_sky_seed_same_light(next.world, s.world, qx, qy, qz, top - 1);
            if qx == x && qz == z && 0 <= qy <= top {
                if qy < top {
                    if open_to(s.world, qx, qy, qz, top - 1) {
                        assert forall|h: int| qy <= h <= top implies #[trigger] s.world.block_at(
                            qx,
                            h,
                            qz,
                        ) == Some(0u8) by {}
                    }
                    if open_to(s.world, qx, qy, qz, top) {
                        assert forall|h: int| qy <= h <= top - 1
                            implies #[trigger] s.world.block_at(
                            qx,
                            h,
                            qz,
                        ) == Some(0u8) by {}
                    }
                } else {
                    assert(open_to(s.world, qx, qy, qz, top));
                }
            }
        }
        lemma_sky_seeded_chain(s, next, after, first, second, goal);
    } else {
        assert forall|qx: int, qy: int, qz: int| goal(qx, qy, qz) implies #[trigger] queued(
            after,
            3,
            qx,
            qy,
            qz,
        ) by {
            if top >= 0 {
                assert(s.world.block_at(qx, top, qz) == Some(0u8));
            }
        }
    }
}

/// The search of the first `n` columns of a row queues their sky seeds.
pub proof fn lemma_seed_row(s: SolverState, z: int, top: int, n: int)
    requires
        s.world.wf(),
    ensures
        sky_seeded(
            s,
            seed_row(s, z, top, n),
            |qx: int, qy: int, qz: int|
                qz == z && 0 <= qx < n && sky_seed(s.world, qx, qy, qz, top),
        ),
    decreases n,
{
    let goal = |qx: int, qy: int, qz: int|
        qz == z && 0 <= qx < n && sky_seed(s.world, qx, qy, qz, top);
    if n > 0 {
        let before = seed_row(s, z, top, n - 1);
        lemma_seed_row(s, z, top, n - 1);
        lemma_seed_column(before, n - 1, z, top);
        let first = |qx: int, qy: int, qz: int|
            qz == z && 0 <= qx < n - 1 && sky_seed(s.world, qx, qy, qz, top);
        let second = |qx: int, qy: int, qz: int|
            qx == n - 1 && qz == z && sky_seed(before.world, qx, qy, qz, top);
        assert forall|x: int, y: int, z2: int| #[trigger] goal(x, y, z2) == (first(x, y, z2)
            || second(x, y, z2)) by {
            lemma_sky_seed_same_light(before.world, s.world, x, y, z2, top);
        }
        lemma_sky_seeded_chain(s, before, seed_row(s, z, top, n), first, second, goal);
    } else {
        assert(sky_seeded(s, s, goal));
    }
}

/// The search of the first `n` rows of columns queues their sky seeds.
pub proof fn lemma_seed_all(s: SolverState, width: int, top: int, n: int)
    requires
        s.world.wf(),
    ensures
        sky_seeded(
            s,
            seed_all(s, width, top, n),
            |qx: int, qy: int, qz: int|
                0 <= qz < n && 0 <= qx < width && sky_seed(s.world, qx, qy, qz, top),
        ),
    decreases n,
{
    let goal = |qx: int, qy: int, qz: int|
        0 <= qz < n && 0 <= qx < width && sky_seed(s.world, qx, qy, qz, top);
    if n > 0 {
        let before = seed_all(s, width, top, n - 1);
        lemma_seed_all(s, width, top, n - 1);
        lemma_seed_row(before, n - 1, top, width);
        let first = |qx: int, qy: int, qz: int|
            0 <= qz < n - 1 && 0 <= qx < width && sky_seed(s.world, qx, qy, qz, top);
        let second = |qx: int, qy: int, qz: int|
            qz == n - 1 && 0 <= qx < width && sky_seed(before.world, qx, qy, qz, top);
        assert forall|x: int, y: int, z: int| #[trigger] goal(x, y, z) == (first(x, y, z) || second(
            x,
            y,
            z,
        )) by {
            lemma_sky_seed_same_light(before.world, s.world, x, y, z, top);
        }
        lemma_sky_seeded_chain(s, before, seed_all(s, width, top, n), first, second, goal);
    } else {
        assert(sky_seeded(s, s, goal));
    }
}

} // verus!

verus! {

/// Whether every voxel of the world has full sky light.
pub open spec fn full_sky(world: WorldView) -> bool {
    forall|x: int, y: int, z: int|
        world.in_world(x, y, z) ==> #[trigger] world.level_at(x, y, z, 3) == 15
}

/// Whether every voxel of the world is air.
pub open spec fn all_air(world: WorldView) -> bool {
    forall|x: int, y: int, z: int|
        world.in_world(x, y, z) ==> #[trigger] world.block_at(x, y, z) == Some(0u8)
}

/// Whether every level of every channel is zero.
pub open spec fn dark(world: WorldView) -> bool {
    forall|x: int, y: int, z: int, c: int|
        is_channel(c) ==> #[trigger] world.level_at(x, y, z, c) == 0
}

/// Sky propagation in a world with full sky light changes no sky level.
pub proof fn lemma_full_sky_stays(s: SolverState, blocks: BlockRegistry)
    requires
        s.world.wf(),
        queues_wf(s),
        s.rem.len() == 0,
        full_sky(s.world),
    ensures
        full_sky(solved(s, blocks, 3).world),
        solved(s, blocks, 3).world.same_blocks(s.world),
{
    let origin = s.world;
    let inv = |u: SolverState| based(u, origin, 3) && u.rem.len() == 0 && full_sky(u.world);
    let mid_rem = |u: SolverState, e: LightEntry, i: int| false;
    let mid_add = |u: SolverState, e: LightEntry, i: int|
        based(u, origin, 3) && u.rem.len() == 0 && full_sky(u.world) && e.light <= 15;
    assert(step_invariant(inv, mid_rem, mid_add, blocks, 3)) by {
        assert forall|u: SolverState| #[trigger]
            inv(u) && u.rem.len() == 0 && u.add.len() > 0 && u.add[0].light <= 1 implies inv(
            popped_add(u),
        ) by {
            lemma_pop_based(u, origin, 3);
        }
        assert forall|u: SolverState| #[trigger]
            inv(u) && u.rem.len() == 0 && u.add.len() > 0 && u.add[0].light > 1 implies mid_add(
            popped_add(u),
            u.add[0],
            0,
        ) by {
            lemma_pop_based(u, origin, 3);
        }
        assert forall|u: SolverState, e: LightEntry, i: int| 0 <= i < 6 && #[trigger] mid_add(
            u,
            e,
            i,
        ) implies mid_add(add_visit(u, blocks, 3, e, i), e, i + 1) by {
            let (nx, ny, nz) = neighbor(e.x as int, e.y as int, e.z as int, i);
            if u.world.in_world(nx, ny, nz) {
                assert(u.world.level_at(nx, ny, nz, 3) == 15);
            }
            assert(add_visit(u, blocks, 3, e, i) == u);
        }
    }
    lemma_solved_keeps(inv, mid_rem, mid_add, blocks, 3, s);
}

/// Taking the oldest addition entry off the queue keeps the base property.
pub proof fn lemma_pop_based(u: SolverState, origin: WorldView, channel: int)
    requires
        based(u, origin, channel),
        u.add.len() > 0,
    ensures
        based(popped_add(u), origin, channel),
        u.add[0].light <= 15,
{
    let rest = popped_add(u);
    assert forall|k: int| 0 <= k < rest.add.len() implies 0 <= (#[trigger] rest.add[k]).light
        <= 15 by {
        assert(rest.add[k] == u.add[k + 1]);
    }
}

/// A voxel that is dark is gentle towards its neighbours; so a state in
/// which every lit voxel is queued is one in which every voxel is gentle or
/// queued.
pub proof fn lemma_lit_queued_gentle(
    world: WorldView,
    queue: Seq<LightEntry>,
    blocks: BlockRegistry,
    channel: int,
)
    requires
        is_channel(channel),
        lit_is_queued(world, queue, channel),
    ensures
        gentle_or_queued(adding(world, queue), blocks, channel, None),
{
    let u = adding(world, queue);
    assert forall|x: int, y: int, z: int| #[trigger]
        gentle_upto(u.world, blocks, channel, None, x, y, z, 6) || queued(u, channel, x, y, z) by {
        assert(world.level_at(x, y, z, channel) == 0 || queued(u, channel, x, y, z));
        if world.level_at(x, y, z, channel) == 0 {
            assert forall|j: int| 0 <= j < 6 implies gentle_at(world, blocks, channel, None, x, y,
                z, j) by {
                let (mx, my, mz) = neighbor(x, y, z, j);
                lemma_level_range(world, mx, my, mz, channel);
            }
        }
    }
}

/// Attenuation in a channel is a matter of the block ids and the levels of
/// that channel alone.
pub proof fn lemma_attenuated_transfer(
    before: WorldView,
    after: WorldView,
    blocks: BlockRegistry,
    channel: int,
)
    requires
        attenuated(before, blocks, channel),
        agree(after, before, channel),
    ensures
        attenuated(after, blocks, channel),
{
    assert forall|x: int, y: int, z: int| #[trigger]
        gentle_upto(after, blocks, channel, None, x, y, z, 6) by {
        assert(gentle_upto(before, blocks, channel, None, x, y, z, 6));
        assert forall|j: int| 0 <= j < 6 implies gentle_at(after, blocks, channel, None, x, y, z,
            j) by {
            assert(gentle_at(before, blocks, channel, None, x, y, z, j));
            let (mx, my, mz) = neighbor(x, y, z, j);
            assert(after.block_at(mx, my, mz) == before.block_at(mx, my, mz));
            assert(after.level_at(mx, my, mz, channel) == before.level_at(mx, my, mz, channel));
            assert(after.level_at(x, y, z, channel) == before.level_at(x, y, z, channel));
        }
    }
}

/// The seeds that loading collects from the emitters of `world`.
pub open spec fn stage_emit(world: WorldView, blocks: BlockRegistry) -> Seeds {
    emit_all(
        Seeds { world, red: Seq::empty(), green: Seq::empty(), blue: Seq::empty() },
        blocks,
        world.w * 16,
        world.d * 16,
        world.h * 16,
    )
}

/// The world after loading has collected the emitters and written the open
/// sky light.
pub open spec fn stage_sky(world: WorldView, blocks: BlockRegistry) -> WorldView {
    sky_all(stage_emit(world, blocks).world, world.w * 16, world.top(), world.d * 16)
}

/// The state after loading has searched the open sky for seeds.
pub open spec fn stage_seed(world: WorldView, blocks: BlockRegistry) -> SolverState {
    seed_all(idle(stage_sky(world, blocks)), world.w * 16, world.top(), world.d * 16)
}

/// The state after loading has propagated red.
pub open spec fn stage_red(world: WorldView, blocks: BlockRegistry) -> SolverState {
    solved(adding(stage_seed(world, blocks).world, stage_emit(world, blocks).red), blocks, 0)
}

/// The state after loading has propagated green.
pub open spec fn stage_green(world: WorldView, blocks: BlockRegistry) -> SolverState {
    solved(adding(stage_red(world, blocks).world, stage_emit(world, blocks).green), blocks, 1)
}

/// The state after loading has propagated blue.
pub open spec fn stage_blue(world: WorldView, blocks: BlockRegistry) -> SolverState {
    solved(adding(stage_green(world, blocks).world, stage_emit(world, blocks).blue), blocks, 2)
}

/// The state after loading has propagated sky light.
pub open spec fn stage_last(world: WorldView, blocks: BlockRegistry) -> SolverState {
    solved(adding(stage_blue(world, blocks).world, stage_seed(world, blocks).add), blocks, 3)
}

/// What holds of the stages of loading whatever the world holds: each
/// world is well formed, the colour stages leave the sky light of the
/// seeding stage alone, and the sky queue holds light levels only.
pub open spec fn stages_framed(world: WorldView, blocks: BlockRegistry, strict: bool) -> bool {
    let e = stage_emit(world, blocks);
    let lit = stage_sky(world, blocks);
    let s = stage_seed(world, blocks);
    let r = stage_red(world, blocks);
    let g = stage_green(world, blocks);
    let b = stage_blue(world, blocks);
    &&& seeds_sound(e, world, strict)
    &&& sky_filled(
        e.world,
        lit,
        |x: int, y: int, z: int| sunlit(e.world, x, y, z, world.w * 16, world.d * 16, world.top()),
    )
    &&& sky_seeded(
        idle(lit),
        s,
        |x: int, y: int, z: int|
            0 <= z < world.d * 16 && 0 <= x < world.w * 16 && sky_seed(lit, x, y, z, world.top()),
    )
    &&& based(r, s.world, 0)
    &&& based(g, r.world, 1)
    &&& based(b, g.world, 2)
    &&& settled(r)
    &&& settled(g)
    &&& settled(b)
    &&& levels_within(s.add, 0)
    &&& s.rem.len() == 0
}

/// The stages of loading are framed.
pub proof fn lemma_stages_framed(world: WorldView, blocks: BlockRegistry, strict: bool)
    requires
        world.wf(),
        blocks.wf(),
        strict ==> dark(world),
    ensures
        stages_framed(world, blocks, strict),
{
    let start = Seeds { world, red: Seq::empty(), green: Seq::empty(), blue: Seq::empty() };
    assert(seeds_sound(start, world, strict)) by {
        if strict {
            assert(lit_is_queued(world, start.red, 0));
            assert(lit_is_queued(world, start.green, 1));
            assert(lit_is_queued(world, start.blue, 2));
        }
    }
    lemma_emit_all_sound(start, world, strict, blocks, world.w * 16, world.d * 16, world.h * 16);
    let e = stage_emit(world, blocks);
    lemma_sky_all(e.world, world.w * 16, world.top(), world.d * 16);
    let lit = stage_sky(world, blocks);
    lemma_seed_all(idle(lit), world.w * 16, world.top(), world.d * 16);
    let s = stage_seed(world, blocks);
    assert(levels_within(s.add, 0));
    lemma_solved_framed(adding(s.world, e.red), blocks, 0);
    lemma_solved_settled(adding(s.world, e.red), blocks, 0);
    let r = stage_red(world, blocks);
    lemma_solved_framed(adding(r.world, e.green), blocks, 1);
    lemma_solved_settled(adding(r.world, e.green), blocks, 1);
    let g = stage_green(world, blocks);
    lemma_solved_framed(adding(g.world, e.blue), blocks, 2);
    lemma_solved_settled(adding(g.world, e.blue), blocks, 2);
}

/// Loading an all-air world leaves full sky light in every voxel.
pub proof fn lemma_open_world_full_sky(world: WorldView, blocks: BlockRegistry)
    requires
        world.wf(),
        blocks.wf(),
        all_air(world),
    ensures
        full_sky(world_lit(world, blocks)),
        world_lit(world, blocks).same_extent(world),
{
    lemma_stages_framed(world, blocks, false);
    let e = stage_emit(world, blocks);
    let lit = stage_sky(world, blocks);
    let s = stage_seed(world, blocks);
    let r = stage_red(world, blocks);
    let g = stage_green(world, blocks);
    let b = stage_blue(world, blocks);
    assert(full_sky(lit)) by {
        assert forall|x: int, y: int, z: int| lit.in_world(x, y, z) implies #[trigger] lit.level_at(
            x,
            y,
            z,
            3,
        ) == 15 by {
            world.lemma_slot(x, y, z);
            assert forall|h: int| y <= h <= world.top() implies #[trigger] e.world.block_at(x, h, z)
                == Some(0u8) by {
                assert(world.in_world(x, h, z));
                assert(world.block_at(x, h, z) == Some(0u8));
            }
            assert(sunlit(e.world, x, y, z, world.w * 16, world.d * 16, world.top()));
        }
    }
    assert(full_sky(b.world)) by {
        assert forall|x: int, y: int, z: int| b.world.in_world(x, y, z) implies #[trigger]
            b.world.level_at(x, y, z, 3) == 15 by {
            assert(b.world.level_at(x, y, z, 3) == g.world.level_at(x, y, z, 3));
            assert(g.world.level_at(x, y, z, 3) == r.world.level_at(x, y, z, 3));
            assert(r.world.level_at(x, y, z, 3) == s.world.level_at(x, y, z, 3));
            assert(s.world.level_at(x, y, z, 3) == lit.level_at(x, y, z, 3));
            assert(lit.in_world(x, y, z));
        }
    }
    lemma_full_sky_stays(adding(b.world, s.add), blocks);
}

} // verus!

verus! {

/// In a world loaded from darkness, just before sky light propagates every
/// voxel is gentle towards its neighbours or waits in the sky queue.
proof fn lemma_sky_stage_gentle(world: WorldView, blocks: BlockRegistry)
    requires
        world.wf(),
        blocks.wf(),
        dark(world),
        stages_framed(world, blocks, true),
    ensures
        gentle_or_queued(
            adding(stage_blue(world, blocks).world, stage_seed(world, blocks).add),
            blocks,
            3,
            None,
        ),
{
    let e = stage_emit(world, blocks);
    let lit = stage_sky(world, blocks);
    let s = stage_seed(world, blocks);
    let r = stage_red(world, blocks);
    let g = stage_green(world, blocks);
    let b = stage_blue(world, blocks);
    let u = adding(b.world, s.add);
    let top = world.top();
    assert forall|x: int, y: int, z: int| #[trigger] u.world.level_at(x, y, z, 3) == lit.level_at(
        x,
        y,
        z,
        3,
    ) && u.world.block_at(x, y, z) == lit.block_at(x, y, z) && (lit.level_at(x, y, z, 3) == 0
        || lit.level_at(x, y, z, 3) == 15) by {
        assert(b.world.level_at(x, y, z, 3) == g.world.level_at(x, y, z, 3));
        assert(g.world.level_at(x, y, z, 3) == r.world.level_at(x, y, z, 3));
        assert(r.world.level_at(x, y, z, 3) == s.world.level_at(x, y, z, 3));
        assert(s.world.level_at(x, y, z, 3) == lit.level_at(x, y, z, 3));
        assert(b.world.block_at(x, y, z) == g.world.block_at(x, y, z));
        assert(g.world.block_at(x, y, z) == r.world.block_at(x, y, z));
        assert(r.world.block_at(x, y, z) == s.world.block_at(x, y, z));
        assert(s.world.block_at(x, y, z) == lit.block_at(x, y, z));
        assert(e.world.level_at(x, y, z, 3) == world.level_at(x, y, z, 3));
        assert(world.level_at(x, y, z, 3) == 0);
    }
    assert forall|x: int, y: int, z: int| #[trigger]
        gentle_upto(u.world, blocks, 3, None, x, y, z, 6) || queued(u, 3, x, y, z) by {
        let level = lit.level_at(x, y, z, 3);
        assert(u.world.level_at(x, y, z, 3) == level);
        if level == 0 {
            assert forall|j: int| 0 <= j < 6 implies gentle_at(u.world, blocks, 3, None, x, y, z,
                j) by {
                let (mx, my, mz) = neighbor(x, y, z, j);
                lemma_level_range(u.world, mx, my, mz, 3);
            }
        } else {
            assert(level == 15);
            assert(sunlit(e.world, x, y, z, world.w * 16, world.d * 16, top));
            lemma_open_to_same_blocks(e.world, lit, x, y, z, top);
            if dark_beside(lit, x, y, z) {
                assert(sky_seed(lit, x, y, z, top));
                assert(queued(s, 3, x, y, z));
                let k = choose|k: int|
                    0 <= k < s.add.len() && (#[trigger] s.add[k]).x == x && s.add[k].y == y
                        && s.add[k].z == z && s.add[k].light == s.world.level_at(x, y, z, 3);
                assert(s.world.level_at(x, y, z, 3) == lit.level_at(x, y, z, 3));
                assert(u.add[k].x == x);
                assert(queued(u, 3, x, y, z));
            } else {
                assert forall|j: int| 0 <= j < 6 implies gentle_at(
                    u.world,
                    blocks,
                    3,
                    None,
                    x,
                    y,
                    z,
                    j,
                ) by {
                    let (mx, my, mz) = neighbor(x, y, z, j);
                    assert(u.world.level_at(mx, my, mz, 3) == lit.level_at(mx, my, mz, 3));
                    assert(lit.level_at(mx, my, mz, 3) == 0 || lit.level_at(mx, my, mz, 3) == 15);
                    assert(lit.level_at(mx, my, mz, 3) != 0);
                }
            }
        }
    }
}

/// In a world loaded from darkness, just before a colour propagates every
/// voxel that is lit in that colour waits in the colour's queue.
proof fn lemma_colour_stage_queued(world: WorldView, blocks: BlockRegistry)
    requires
        world.wf(),
        blocks.wf(),
        dark(world),
        stages_framed(world, blocks, true),
    ensures
        lit_is_queued(stage_seed(world, blocks).world, stage_emit(world, blocks).red, 0),
        lit_is_queued(stage_red(world, blocks).world, stage_emit(world, blocks).green, 1),
        lit_is_queued(stage_green(world, blocks).world, stage_emit(world, blocks).blue, 2),
{
    let e = stage_emit(world, blocks);
    let lit = stage_sky(world, blocks);
    let s = stage_seed(world, blocks);
    let r = stage_red(world, blocks);
    let g = stage_green(world, blocks);
    assert forall|x: int, y: int, z: int, c: int| 0 <= c < 3 implies #[trigger] s.world.level_at(
        x,
        y,
        z,
        c,
    ) == e.world.level_at(x, y, z, c) by {
        assert(s.world.level_at(x, y, z, c) == lit.level_at(x, y, z, c));
        assert(lit.level_at(x, y, z, c) == e.world.level_at(x, y, z, c));
    }
    lemma_lit_queued_transfer(e.world, s.world, e.red, 0);
    lemma_lit_queued_transfer(e.world, s.world, e.green, 1);
    lemma_lit_queued_transfer(s.world, r.world, e.green, 1);
    lemma_lit_queued_transfer(e.world, s.world, e.blue, 2);
    lemma_lit_queued_transfer(s.world, r.world, e.blue, 2);
    lemma_lit_queued_transfer(r.world, g.world, e.blue, 2);
}

/// A framed world agrees with its origin in every channel but the one that
/// was worked on.
pub proof fn lemma_framed_agree(world: WorldView, origin: WorldView, channel: int, other: int)
    requires
        framed(world, origin, channel),
        is_channel(other),
        other != channel,
    ensures
        agree(world, origin, other),
{
}

/// Loading a dark world leaves an attenuated world: in every channel, no
/// voxel is more than one level brighter than a neighbour that lets light
/// pass.
pub proof fn lemma_world_lit_attenuated(world: WorldView, blocks: BlockRegistry)
    requires
        world.wf(),
        blocks.wf(),
        dark(world),
    ensures
        attenuated(world_lit(world, blocks), blocks, 0),
        attenuated(world_lit(world, blocks), blocks, 1),
        attenuated(world_lit(world, blocks), blocks, 2),
        attenuated(world_lit(world, blocks), blocks, 3),
{
    lemma_stages_framed(world, blocks, true);
    lemma_colour_stage_queued(world, blocks);
    lemma_sky_stage_gentle(world, blocks);
    let e = stage_emit(world, blocks);
    let s = stage_seed(world, blocks);
    let r = stage_red(world, blocks);
    let g = stage_green(world, blocks);
    let b = stage_blue(world, blocks);
    let k = stage_last(world, blocks);
    lemma_lit_queued_gentle(s.world, e.red, blocks, 0);
    lemma_solved_attenuated(adding(s.world, e.red), blocks, 0);
    lemma_lit_queued_gentle(r.world, e.green, blocks, 1);
    lemma_solved_attenuated(adding(r.world, e.green), blocks, 1);
    lemma_lit_queued_gentle(g.world, e.blue, blocks, 2);
    lemma_solved_attenuated(adding(g.world, e.blue), blocks, 2);
    lemma_solved_attenuated(adding(b.world, s.add), blocks, 3);
    lemma_solved_framed(adding(b.world, s.add), blocks, 3);
    lemma_framed_agree(g.world, r.world, 1, 0);
    lemma_attenuated_transfer(r.world, g.world, blocks, 0);
    lemma_framed_agree(b.world, g.world, 2, 0);
    lemma_attenuated_transfer(g.world, b.world, blocks, 0);
    lemma_framed_agree(k.world, b.world, 3, 0);
    lemma_attenuated_transfer(b.world, k.world, blocks, 0);
    lemma_framed_agree(b.world, g.world, 2, 1);
    lemma_attenuated_transfer(g.world, b.world, blocks, 1);
    lemma_framed_agree(k.world, b.world, 3, 1);
    lemma_attenuated_transfer(b.world, k.world, blocks, 1);
    lemma_framed_agree(k.world, b.world, 3, 2);
    lemma_attenuated_transfer(b.world, k.world, blocks, 2);
}

} // verus!
