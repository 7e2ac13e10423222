//! Light storage and propagation, and the orchestration of the four
//! channels when a world is loaded or edited.

use vstd::prelude::*;
use crate::lighting::light_solver::{LightEntry, LightSolver, SolverState, idle, seeded, solved,
    unlit};
use crate::voxels::BlockRegistry;
use crate::voxels::chunks::Chunks;
use crate::voxels::world::WorldView;

use crate::lighting::edit_laws::{dimmer, lemma_placement_darkens, lemma_placement_dims, shut};
use crate::lighting::calm_laws::tidy;
use crate::lighting::edit_calm_laws::{lemma_placement_keeps_attenuation,
    lemma_removal_keeps_attenuation, tidy_except};
use crate::lighting::laws::{attenuated, attenuated_but};
use crate::lighting::lightmap::is_channel;
use crate::lighting::load_laws::{all_air, dark, full_sky, lemma_open_world_full_sky,
    lemma_world_lit_attenuated};

pub mod lightmap;
pub mod light_solver;
pub mod laws;
pub mod load_laws;
pub mod edit_laws;
pub mod calm_laws;
pub mod edit_calm_laws;

verus! {

/// Index of the red channel.
pub const RED: i32 = 0;

/// Index of the green channel.
pub const GREEN: i32 = 1;

/// Index of the blue channel.
pub const BLUE: i32 = 2;

/// Index of the sky channel.
pub const SKY: i32 = 3;

/// The world after the voxel at (x, y, z) was darkened in `channel` and the
/// darkness propagated.
pub open spec fn darkened(
    world: WorldView,
    blocks: BlockRegistry,
    channel: int,
    x: int,
    y: int,
    z: int,
) -> WorldView {
    solved(unlit(idle(world), channel, x, y, z), blocks, channel).world
}

/// The world after the voxel at (x, y, z) was lit at `emission` in `channel`
/// and the light propagated.
pub open spec fn kindled(
    world: WorldView,
    blocks: BlockRegistry,
    channel: int,
    x: int,
    y: int,
    z: int,
    emission: int,
) -> WorldView {
    solved(seeded(idle(world), channel, x, y, z, Some(emission)), blocks, channel).world
}

/// The state after the six neighbours of (x, y, z) were asked to spread the
/// levels they store: above, below, then along x, then along z.
pub open spec fn neighbors_seeded(s: SolverState, channel: int, x: int, y: int, z: int)
    -> SolverState {
    let s1 = seeded(s, channel, x, y + 1, z, None);
    let s2 = seeded(s1, channel, x, y - 1, z, None);
    let s3 = seeded(s2, channel, x + 1, y, z, None);
    let s4 = seeded(s3, channel, x - 1, y, z, None);
    let s5 = seeded(s4, channel, x, y, z + 1, None);
    seeded(s5, channel, x, y, z - 1, None)
}

/// The world after the six neighbours of (x, y, z) spread their light in
/// `channel`.
pub open spec fn rekindled(
    world: WorldView,
    blocks: BlockRegistry,
    channel: int,
    x: int,
    y: int,
    z: int,
) -> WorldView {
    solved(neighbors_seeded(idle(world), channel, x, y, z), blocks, channel).world
}

/// The state after full sky light was seeded down the column (x, z), from
/// height `y` to the first voxel that is not air. Heights without a voxel are
/// passed over.
pub open spec fn sky_refill(s: SolverState, x: int, z: int, y: int) -> SolverState
    decreases y + 1,
{
    if y < 0 {
        s
    } else {
        match s.world.block_at(x, y, z) {
            None => sky_refill(s, x, z, y - 1),
            Some(id) => if id != 0 {
                s
            } else {
                sky_refill(seeded(s, 3, x, y, z, Some(15)), x, z, y - 1)
            },
        }
    }
}

/// The state after sky light was taken from the column (x, z), from height
/// `y` down to the first voxel that is not air. Heights without a voxel are
/// passed over.
pub open spec fn shadowed(s: SolverState, x: int, z: int, y: int) -> SolverState
    decreases y + 1,
{
    if y < 0 {
        s
    } else {
        match s.world.block_at(x, y, z) {
            None => shadowed(s, x, z, y - 1),
            Some(id) => if id != 0 {
                s
            } else {
                shadowed(unlit(s, 3, x, y, z), x, z, y - 1)
            },
        }
    }
}

/// The smaller of two integers.
pub open spec fn least(a: int, b: int) -> int {
    if a <= b {
        a
    } else {
        b
    }
}

/// Level that block `id` emits in `channel`; zero for an unregistered block.
pub open spec fn emission_of(blocks: BlockRegistry, id: u8, channel: int) -> int {
    match blocks.lookup(id) {
        Some(block) => block.emission[channel] as int,
        None => 0,
    }
}

/// The world after the lighting reacted to the voxel at (x, y, z) having
/// become air. The colour channels of the voxel go dark. If the voxel above
/// has full sky light, full sky light is seeded down the opened column.
/// At last the six neighbours spread their light into the opening, in every
/// channel.
pub open spec fn after_removal(world: WorldView, blocks: BlockRegistry, x: int, y: int, z: int)
    -> WorldView {
    let w1 = darkened(world, blocks, 0, x, y, z);
    let w2 = darkened(w1, blocks, 1, x, y, z);
    let w3 = darkened(w2, blocks, 2, x, y, z);
    let w4 = if w3.level_at(x, y + 1, z, 3) == 15 {
        solved(sky_refill(idle(w3), x, z, least(y, w3.top())), blocks, 3).world
    } else {
        w3
    };
    let w5 = rekindled(w4, blocks, 0, x, y, z);
    let w6 = rekindled(w5, blocks, 1, x, y, z);
    let w7 = rekindled(w6, blocks, 2, x, y, z);
    rekindled(w7, blocks, 3, x, y, z)
}

/// The world after the lighting reacted to block `id` having been placed at
/// (x, y, z). All four channels of the voxel go dark. Sky light is taken
/// from the air below the voxel, down to the first voxel that is not air.
/// At last the block's own emission spreads in the colour channels.
pub open spec fn after_placement(
    world: WorldView,
    blocks: BlockRegistry,
    x: int,
    y: int,
    z: int,
    id: u8,
) -> WorldView {
    let w1 = darkened(world, blocks, 0, x, y, z);
    let w2 = darkened(w1, blocks, 1, x, y, z);
    let w3 = darkened(w2, blocks, 2, x, y, z);
    let w4 = darkened(w3, blocks, 3, x, y, z);
    let w5 = solved(shadowed(idle(w4), x, z, least(y - 1, w4.top())), blocks, 3).world;
    let w6 = kindled(w5, blocks, 0, x, y, z, emission_of(blocks, id, 0));
    let w7 = kindled(w6, blocks, 1, x, y, z, emission_of(blocks, id, 1));
    kindled(w7, blocks, 2, x, y, z, emission_of(blocks, id, 2))
}

/// The world after the lighting reacted to an edit that left block `id` at
/// (x, y, z).
pub open spec fn after_block_set(
    world: WorldView,
    blocks: BlockRegistry,
    x: int,
    y: int,
    z: int,
    id: u8,
) -> WorldView {
    if id == 0 {
        after_removal(world, blocks, x, y, z)
    } else {
        after_placement(world, blocks, x, y, z, id)
    }
}

/// World and colour queues while the emitters of a world are collected.
#[verifier::ext_equal]
pub struct Seeds {
    pub world: WorldView,
    pub red: Seq<LightEntry>,
    pub green: Seq<LightEntry>,
    pub blue: Seq<LightEntry>,
}

/// A state with the given world, an empty removal queue and the given
/// addition queue.
pub open spec fn adding(world: WorldView, add: Seq<LightEntry>) -> SolverState {
    SolverState { world, rem: Seq::empty(), add }
}

/// The seeds after the voxel at (x, y, z) was lit, in each colour channel,
/// at the level its block emits there. A voxel outside the world or a block
/// that emits at most level 1 in a channel adds nothing to that channel.
pub open spec fn emitter_seeded(s: Seeds, blocks: BlockRegistry, x: int, y: int, z: int) -> Seeds {
    match s.world.block_at(x, y, z) {
        Some(id) => {
            let r = seeded(adding(s.world, s.red), 0, x, y, z, Some(emission_of(blocks, id, 0)));
            let g = seeded(adding(r.world, s.green), 1, x, y, z, Some(emission_of(blocks, id, 1)));
            let b = seeded(adding(g.world, s.blue), 2, x, y, z, Some(emission_of(blocks, id, 2)));
            Seeds { world: b.world, red: r.add, green: g.add, blue: b.add }
        },
        None => s,
    }
}

/// The seeds after the first `n` voxels of the row (y, z) were visited.
pub open spec fn emit_row(s: Seeds, blocks: BlockRegistry, y: int, z: int, n: int) -> Seeds
    decreases n,
{
    if n <= 0 {
        s
    } else {
        emitter_seeded(emit_row(s, blocks, y, z, n - 1), blocks, n - 1, y, z)
    }
}

/// The seeds after the first `n` rows of layer `y` were visited, each row
/// `width` voxels long.
pub open spec fn emit_layer(s: Seeds, blocks: BlockRegistry, width: int, y: int, n: int) -> Seeds
    decreases n,
{
    if n <= 0 {
        s
    } else {
        emit_row(emit_layer(s, blocks, width, y, n - 1), blocks, y, n - 1, width)
    }
}

/// The seeds after the first `n` layers were visited, each layer `depth`
/// rows of `width` voxels.
pub open spec fn emit_all(s: Seeds, blocks: BlockRegistry, width: int, depth: int, n: int) -> Seeds
    decreases n,
{
    if n <= 0 {
        s
    } else {
        emit_layer(emit_all(s, blocks, width, depth, n - 1), blocks, width, n - 1, depth)
    }
}

/// The world after full sky light was written down the column (x, z), from
/// height `y` to the first voxel that is not air.
pub open spec fn sky_column(world: WorldView, x: int, z: int, y: int) -> WorldView
    decreases y + 1,
{
    if y < 0 {
        world
    } else {
        match world.block_at(x, y, z) {
            Some(id) => if id != 0 {
                world
            } else {
                sky_column(world.with_level(x, y, z, 3, 15), x, z, y - 1)
            },
            None => world,
        }
    }
}

/// The world after the first `n` columns of row `z` received their open
/// sky light, each from height `top` down.
pub open spec fn sky_row(world: WorldView, z: int, top: int, n: int) -> WorldView
    decreases n,
{
    if n <= 0 {
        world
    } else {
        sky_column(sky_row(world, z, top, n - 1), n - 1, z, top)
    }
}

/// The world after the first `n` rows of columns received their open sky
/// light, each row `width` columns long.
pub open spec fn sky_all(world: WorldView, width: int, top: int, n: int) -> WorldView
    decreases n,
{
    if n <= 0 {
        world
    } else {
        sky_row(sky_all(world, width, top, n - 1), n - 1, top, width)
    }
}

/// Whether one of the six neighbours of (x, y, z) has no sky light.
/// Positions outside the world count as dark.
pub open spec fn dark_beside(world: WorldView, x: int, y: int, z: int) -> bool {
    ||| world.level_at(x - 1, y, z, 3) == 0
    ||| world.level_at(x + 1, y, z, 3) == 0
    ||| world.level_at(x, y - 1, z, 3) == 0
    ||| world.level_at(x, y + 1, z, 3) == 0
    ||| world.level_at(x, y, z - 1, 3) == 0
    ||| world.level_at(x, y, z + 1, 3) == 0
}

/// The state after the open part of the column (x, z), from height `y` down
/// to the first voxel that is not air, was searched for voxels beside a dark
/// one; each such voxel is asked to spread the sky light it stores.
pub open spec fn seed_column(s: SolverState, x: int, z: int, y: int) -> SolverState
    decreases y + 1,
{
    if y < 0 {
        s
    } else {
        match s.world.block_at(x, y, z) {
            Some(id) => if id != 0 {
                s
            } else {
                let next = if dark_beside(s.world, x, y, z) {
                    seeded(s, 3, x, y, z, None)
                } else {
                    s
                };
                seed_column(next, x, z, y - 1)
            },
            None => s,
        }
    }
}

/// The state after the first `n` columns of row `z` were searched.
pub open spec fn seed_row(s: SolverState, z: int, top: int, n: int) -> SolverState
    decreases n,
{
    if n <= 0 {
        s
    } else {
        seed_column(seed_row(s, z, top, n - 1), n - 1, z, top)
    }
}

/// The state after the first `n` rows of columns were searched, each row
/// `width` columns long.
pub open spec fn seed_all(s: SolverState, width: int, top: int, n: int) -> SolverState
    decreases n,
{
    if n <= 0 {
        s
    } else {
        seed_row(seed_all(s, width, top, n - 1), n - 1, top, width)
    }
}

/// The world after its light was built up from the blocks. Every emitting
/// block is lit at its emission in the colour channels. Every column gets
/// full sky light from the top of the world down to its first voxel that is
/// not air. Sky-lit voxels beside a dark voxel are queued, and then red,
/// green, blue and sky propagate, in this order.
pub open spec fn world_lit(world: WorldView, blocks: BlockRegistry) -> WorldView {
    let width = world.w * 16;
    let depth = world.d * 16;
    let height = world.h * 16;
    let e = emit_all(
        Seeds { world, red: Seq::empty(), green: Seq::empty(), blue: Seq::empty() },
        blocks,
        width,
        depth,
        height,
    );
    let lit = sky_all(e.world, width, world.top(), depth);
    let s = seed_all(idle(lit), width, world.top(), depth);
    let r = solved(adding(s.world, e.red), blocks, 0);
    let g = solved(adding(r.world, e.green), blocks, 1);
    let b = solved(adding(g.world, e.blue), blocks, 2);
    solved(adding(b.world, s.add), blocks, 3).world
}

/// The four channel solvers of a world.
pub struct Lighting {
    solver_r: LightSolver,
    solver_g: LightSolver,
    solver_b: LightSolver,
    solver_s: LightSolver,
}

/// Whether `solver` is the resting solver of `channel`.
pub open spec fn rests(solver: LightSolver, channel: int) -> bool {
    solver.wf() && solver.is_idle() && solver.channel_index() == channel
}

/// Equal queues make equal states.
proof fn lemma_idle_state(solver: LightSolver, world: WorldView)
    requires
        solver.is_idle(),
    ensures
        solver.state(world) == idle(world),
{
    assert(solver.state(world).rem =~= idle(world).rem);
    assert(solver.state(world).add =~= idle(world).add);
}

/// Darkens the voxel at (x, y, z) in the solver's channel and propagates.
fn darken(solver: &mut LightSolver, x: i32, y: i32, z: i32, blocks: &BlockRegistry,
    chunks: &mut Chunks)
    requires
        old(solver).wf(),
        old(solver).is_idle(),
        old(chunks).wf(),
        blocks.wf(),
    ensures
        rests(*final(solver), old(solver).channel_index()),
        final(chunks).wf(),
        final(chunks)@ == darkened(
            old(chunks)@,
            *blocks,
            old(solver).channel_index(),
            x as int,
            y as int,
            z as int,
        ),
{
    proof {
        lemma_idle_state(*solver, chunks@);
    }
    solver.remove(x, y, z, chunks);
    solver.solve(blocks, chunks);
}

/// Lights the voxel at (x, y, z) at `emission` in the solver's channel and
/// propagates.
fn kindle(
    solver: &mut LightSolver,
    x: i32,
    y: i32,
    z: i32,
    emission: u8,
    blocks: &BlockRegistry,
    chunks: &mut Chunks,
)
    requires
        old(solver).wf(),
        old(solver).is_idle(),
        old(chunks).wf(),
        blocks.wf(),
        emission <= 15,
    ensures
        rests(*final(solver), old(solver).channel_index()),
        final(chunks).wf(),
        final(chunks)@ == kindled(
            old(chunks)@,
            *blocks,
            old(solver).channel_index(),
            x as int,
            y as int,
            z as int,
            emission as int,
        ),
{
    proof {
        lemma_idle_state(*solver, chunks@);
    }
    solver.add(x, y, z, Some(emission as i32), chunks);
    solver.solve(blocks, chunks);
}

/// Asks the voxel at (x, y, z) to spread its stored level, where the
/// position is given by 64-bit coordinates that may lie outside the 32-bit
/// range; such positions lie outside every world.
fn seed_stored(solver: &mut LightSolver, x: i64, y: i64, z: i64, chunks: &mut Chunks)
    requires
        old(solver).wf(),
        old(chunks).wf(),
    ensures
        final(solver).wf(),
        final(chunks).wf(),
        final(solver).channel_index() == old(solver).channel_index(),
        final(solver).state(final(chunks)@) == seeded(
            old(solver).state(old(chunks)@),
            old(solver).channel_index(),
            x as int,
            y as int,
            z as int,
            None,
        ),
{
    if -2147483648 <= x && x <= 2147483647 && -2147483648 <= y && y <= 2147483647 && -2147483648
        <= z && z <= 2147483647 {
        solver.add(x as i32, y as i32, z as i32, None, chunks);
    } else {
        proof {
            if chunks@.in_world(x as int, y as int, z as int) {
                chunks@.lemma_slot(x as int, y as int, z as int);
            }
        }
    }
}

/// Lets the six neighbours of (x, y, z) spread their light in the solver's
/// channel and propagates.
fn rekindle(solver: &mut LightSolver, x: i32, y: i32, z: i32, blocks: &BlockRegistry,
    chunks: &mut Chunks)
    requires
        old(solver).wf(),
        old(solver).is_idle(),
        old(chunks).wf(),
        blocks.wf(),
    ensures
        rests(*final(solver), old(solver).channel_index()),
        final(chunks).wf(),
        final(chunks)@ == rekindled(
            old(chunks)@,
            *blocks,
            old(solver).channel_index(),
            x as int,
            y as int,
            z as int,
        ),
{
    proof {
        lemma_idle_state(*solver, chunks@);
    }
    let (lx, ly, lz) = (x as i64, y as i64, z as i64);
    seed_stored(solver, lx, ly + 1, lz, chunks);
    seed_stored(solver, lx, ly - 1, lz, chunks);
    seed_stored(solver, lx + 1, ly, lz, chunks);
    seed_stored(solver, lx - 1, ly, lz, chunks);
    seed_stored(solver, lx, ly, lz + 1, chunks);
    seed_stored(solver, lx, ly, lz - 1, chunks);
    solver.solve(blocks, chunks);
}

/// World coordinate of the topmost voxel layer of the store.
fn top_of(chunks: &Chunks) -> (r: i32)
    requires
        chunks.wf(),
    ensures
        r == chunks@.top(),
        -1 <= r,
{
    (chunks.h as i32) * 16 - 1
}

/// Seeds full sky light down the column (x, z) from height `from` and
/// propagates.
fn refill_sky(solver: &mut LightSolver, x: i32, z: i32, from: i32, blocks: &BlockRegistry,
    chunks: &mut Chunks)
    requires
        old(solver).wf(),
        old(solver).is_idle(),
        old(solver).channel_index() == 3,
        old(chunks).wf(),
        blocks.wf(),
    ensures
        rests(*final(solver), 3),
        final(chunks).wf(),
        final(chunks)@ == solved(
            sky_refill(idle(old(chunks)@), x as int, z as int, from as int),
            *blocks,
            3,
        ).world,
{
    proof {
        lemma_idle_state(*solver, chunks@);
    }
    let ghost goal = sky_refill(idle(old(chunks)@), x as int, z as int, from as int);
    let mut i: i32 = from;
    let mut open: bool = true;
    while open && i >= 0
        invariant
            solver.wf(),
            solver.channel_index() == 3,
            chunks.wf(),
            i <= from,
            open ==> goal == sky_refill(solver.state(chunks@), x as int, z as int, i as int),
            !open ==> goal == solver.state(chunks@),
        decreases
                (if open {
                    1int
                } else {
                    0int
                }),
                i + 1,
    {
        let id = match chunks.get_voxel(x, i, z) {
            Some(v) => Some(v.id),
            None => None,
        };
        match id {
            Some(id) => {
                if id != 0 {
                    open = false;
                } else {
                    solver.add(x, i, z, Some(15), chunks);
                    i = i - 1;
                }
            },
            None => {
                i = i - 1;
            },
        }
    }
    solver.solve(blocks, chunks);
}

/// Takes sky light from the column (x, z) from height `from` downwards and
/// propagates.
fn cast_shadow(solver: &mut LightSolver, x: i32, z: i32, from: i32, blocks: &BlockRegistry,
    chunks: &mut Chunks)
    requires
        old(solver).wf(),
        old(solver).is_idle(),
        old(solver).channel_index() == 3,
        old(chunks).wf(),
        blocks.wf(),
    ensures
        rests(*final(solver), 3),
        final(chunks).wf(),
        final(chunks)@ == solved(
            shadowed(idle(old(chunks)@), x as int, z as int, from as int),
            *blocks,
            3,
        ).world,
{
    proof {
        lemma_idle_state(*solver, chunks@);
    }
    let ghost goal = shadowed(idle(old(chunks)@), x as int, z as int, from as int);
    let mut i: i32 = from;
    let mut open: bool = true;
    while open && i >= 0
        invariant
            solver.wf(),
            solver.channel_index() == 3,
            chunks.wf(),
            i <= from,
            open ==> goal == shadowed(solver.state(chunks@), x as int, z as int, i as int),
            !open ==> goal == solver.state(chunks@),
        decreases
                (if open {
                    1int
                } else {
                    0int
                }),
                i + 1,
    {
        let id = match chunks.get_voxel(x, i, z) {
            Some(v) => Some(v.id),
            None => None,
        };
        match id {
            Some(id) => {
                if id != 0 {
                    open = false;
                } else {
                    solver.remove(x, i, z, chunks);
                    i = i - 1;
                }
            },
            None => {
                i = i - 1;
            },
        }
    }
    solver.solve(blocks, chunks);
}

/// A solver without queued removals is in the state `adding`.
proof fn lemma_adding_state(solver: LightSolver, world: WorldView)
    requires
        solver.removals().len() == 0,
    ensures
        solver.state(world) == adding(world, solver.additions()),
{
    assert(solver.state(world).rem =~= adding(world, solver.additions()).rem);
}

/// Extents of the store in voxels: width, height and depth.
fn extent_of(chunks: &Chunks) -> (r: (i32, i32, i32))
    requires
        chunks.wf(),
    ensures
        r.0 == chunks@.w * 16,
        r.1 == chunks@.h * 16,
        r.2 == chunks@.d * 16,
        0 <= r.0 <= 2147483632,
        0 <= r.1 <= 2147483632,
        0 <= r.2 <= 2147483632,
{
    ((chunks.w as i32) * 16, (chunks.h as i32) * 16, (chunks.d as i32) * 16)
}

/// Writes full sky light down the column (x, z) from the top of the world
/// to the first voxel that is not air.
fn light_column(x: i32, z: i32, chunks: &mut Chunks)
    requires
        old(chunks).wf(),
    ensures
        final(chunks).wf(),
        final(chunks)@.same_extent(old(chunks)@),
        final(chunks)@ == sky_column(old(chunks)@, x as int, z as int, old(chunks)@.top()),
{
    let top = top_of(chunks);
    let ghost goal = sky_column(chunks@, x as int, z as int, top as int);
    let mut y: i32 = top;
    let mut open: bool = true;
    while open && y >= 0
        invariant
            chunks.wf(),
            chunks@.same_extent(old(chunks)@),
            -1 <= y <= top,
            open ==> goal == sky_column(chunks@, x as int, z as int, y as int),
            !open ==> goal == chunks@,
        decreases
                (if open {
                    1int
                } else {
                    0int
                }),
                y + 1,
    {
        let id = match chunks.get_voxel(x, y, z) {
            Some(v) => Some(v.id),
            None => None,
        };
        match id {
            Some(id) => {
                if id != 0 {
                    open = false;
                } else {
                    proof {
                        chunks@.lemma_with_level(x as int, y as int, z as int, 3, 15);
                    }
                    chunks.put_light(x, y, z, SKY, 15);
                    y = y - 1;
                }
            },
            None => {
                open = false;
            },
        }
    }
}

/// Whether one of the six neighbours of (x, y, z) has no sky light.
fn is_dark_beside(x: i32, y: i32, z: i32, chunks: &Chunks) -> (r: bool)
    requires
        chunks.wf(),
        -1 <= x < i32::MAX,
        -1 <= y < i32::MAX,
        -1 <= z < i32::MAX,
    ensures
        r == dark_beside(chunks@, x as int, y as int, z as int),
{
    chunks.get_light(x - 1, y, z, SKY) == 0 || chunks.get_light(x + 1, y, z, SKY) == 0
        || chunks.get_light(x, y - 1, z, SKY) == 0 || chunks.get_light(x, y + 1, z, SKY) == 0
        || chunks.get_light(x, y, z - 1, SKY) == 0 || chunks.get_light(x, y, z + 1, SKY) == 0
}

/// Searches the open part of the column (x, z) for voxels beside a dark
/// voxel and queues them.
fn seed_column_of(solver: &mut LightSolver, x: i32, z: i32, chunks: &mut Chunks)
    requires
        old(solver).wf(),
        old(solver).channel_index() == 3,
        old(chunks).wf(),
        0 <= x < i32::MAX,
        0 <= z < i32::MAX,
    ensures
        final(solver).wf(),
        final(solver).channel_index() == 3,
        final(solver).removals() == old(solver).removals(),
        final(chunks).wf(),
        final(chunks)@.same_extent(old(chunks)@),
        final(solver).state(final(chunks)@) == seed_column(
            old(solver).state(old(chunks)@),
            x as int,
            z as int,
            old(chunks)@.top(),
        ),
{
    let top = top_of(chunks);
    let ghost goal = seed_column(solver.state(chunks@), x as int, z as int, top as int);
    let mut y: i32 = top;
    let mut open: bool = true;
    while open && y >= 0
        invariant
            solver.wf(),
            solver.channel_index() == 3,
            solver.removals() == old(solver).removals(),
            chunks.wf(),
            chunks@.same_extent(old(chunks)@),
            0 <= x < i32::MAX,
            0 <= z < i32::MAX,
            -1 <= y <= top,
            open ==> goal == seed_column(solver.state(chunks@), x as int, z as int, y as int),
            !open ==> goal == solver.state(chunks@),
        decreases
                (if open {
                    1int
                } else {
                    0int
                }),
                y + 1,
    {
        let id = match chunks.get_voxel(x, y, z) {
            Some(v) => Some(v.id),
            None => None,
        };
        match id {
            Some(id) => {
                if id != 0 {
                    open = false;
                } else {
                    if is_dark_beside(x, y, z, chunks) {
                        proof {
                            let level = chunks@.level_at(x as int, y as int, z as int, 3);
                            if chunks@.in_world(x as int, y as int, z as int) {
                                chunks@.lemma_slot(x as int, y as int, z as int);
                                crate::lighting::lightmap::lemma_with_channel(
                                    chunks@.chunks[chunks@.chunk_slot(
                                        x as int,
                                        y as int,
                                        z as int,
                                    )].lights[crate::voxels::world::voxel_slot(
                                        x as int,
                                        y as int,
                                        z as int,
                                    )],
                                    3,
                                    0,
                                    3,
                                );
                                chunks@.lemma_with_level(x as int, y as int, z as int, 3, level);
                            }
                        }
                        solver.add(x, y, z, None, chunks);
                    }
                    y = y - 1;
                }
            },
            None => {
                open = false;
            },
        }
    }
}

impl Lighting {
    /// Every solver rests on its own channel: red, green, blue, sky.
    pub closed spec fn wf(&self) -> bool {
        &&& rests(self.solver_r, 0)
        &&& rests(self.solver_g, 1)
        &&& rests(self.solver_b, 2)
        &&& rests(self.solver_s, 3)
    }

    /// Four resting solvers, one per channel.
    pub fn new() -> (r: Self)
        ensures
            r.wf(),
    {
        let solver_r = LightSolver::new(RED);
        let solver_g = LightSolver::new(GREEN);
        let solver_b = LightSolver::new(BLUE);
        let solver_s = LightSolver::new(SKY);
        Lighting { solver_r, solver_g, solver_b, solver_s }
    }

    /// Sets every channel of every voxel to zero and marks every chunk as
    /// modified.
    pub fn clear(&mut self, chunks: &mut Chunks)
        requires
            old(chunks).wf(),
        ensures
            *final(self) == *old(self),
            final(chunks).wf(),
            final(chunks)@ == old(chunks)@.cleared(),
    {
        let n = chunks.chunks.len();
        let mut i: usize = 0;
        while i < n
            invariant
                i <= n,
                n == chunks.chunks@.len(),
                n == old(chunks).chunks@.len(),
                chunks.w == old(chunks).w,
                chunks.h == old(chunks).h,
                chunks.d == old(chunks).d,
                chunks.volume == old(chunks).volume,
                old(chunks).wf(),
                forall|k: int|
                    0 <= k < n ==> #[trigger] chunks.chunks@[k]@ == if k < i {
                        old(chunks)@.cleared().chunks[k]
                    } else {
                        old(chunks).chunks@[k]@
                    },
            decreases n - i,
        {
            proof {
                assert(old(chunks)@.chunks[i as int].wf());
                assert(chunks.chunks@[i as int]@ == old(chunks)@.chunks[i as int]);
            }
            chunks.chunks[i].darken();
            i = i + 1;
        }
        proof {
            assert(chunks@ =~~= old(chunks)@.cleared());
            lemma_cleared_wf(old(chunks)@);
        }
    }

    /// Queues every emitting block of the world in the colour solvers and
    /// stores its emission at its voxel.
    fn seed_emitters(&mut self, blocks: &BlockRegistry, chunks: &mut Chunks)
        requires
            old(self).wf(),
            old(chunks).wf(),
            blocks.wf(),
        ensures
            final(chunks).wf(),
            final(chunks)@.same_extent(old(chunks)@),
            final(self).solver_s == old(self).solver_s,
            final(self).solver_r.wf() && final(self).solver_r.channel_index() == 0
                && final(self).solver_r.removals().len() == 0,
            final(self).solver_g.wf() && final(self).solver_g.channel_index() == 1
                && final(self).solver_g.removals().len() == 0,
            final(self).solver_b.wf() && final(self).solver_b.channel_index() == 2
                && final(self).solver_b.removals().len() == 0,
            (Seeds {
                world: final(chunks)@,
                red: final(self).solver_r.additions(),
                green: final(self).solver_g.additions(),
                blue: final(self).solver_b.additions(),
            }) == emit_all(
                Seeds {
                    world: old(chunks)@,
                    red: Seq::empty(),
                    green: Seq::empty(),
                    blue: Seq::empty(),
                },
                *blocks,
                old(chunks)@.w * 16,
                old(chunks)@.d * 16,
                old(chunks)@.h * 16,
            ),
    {
        let (width, height, depth) = extent_of(chunks);
        let ghost start = Seeds {
            world: chunks@,
            red: Seq::empty(),
            green: Seq::empty(),
            blue: Seq::empty(),
        };
        proof {
            assert(self.solver_r.additions() =~= Seq::empty());
            assert(self.solver_g.additions() =~= Seq::empty());
            assert(self.solver_b.additions() =~= Seq::empty());
        }
        let mut y: i32 = 0;
        while y < height
            invariant
                0 <= y <= height,
                0 <= width <= 2147483632,
                0 <= depth <= 2147483632,
                chunks.wf(),
                blocks.wf(),
                chunks@.same_extent(old(chunks)@),
                self.solver_s == old(self).solver_s,
                self.solver_r.wf() && self.solver_r.channel_index() == 0
                    && self.solver_r.removals().len() == 0,
                self.solver_g.wf() && self.solver_g.channel_index() == 1
                    && self.solver_g.removals().len() == 0,
                self.solver_b.wf() && self.solver_b.channel_index() == 2
                    && self.solver_b.removals().len() == 0,
                (Seeds {
                    world: chunks@,
                    red: self.solver_r.additions(),
                    green: self.solver_g.additions(),
                    blue: self.solver_b.additions(),
                }) == emit_all(start, *blocks, width as int, depth as int, y as int),
            decreases height - y,
        {
            let ghost layer = emit_all(start, *blocks, width as int, depth as int, y as int);
            let mut z: i32 = 0;
            while z < depth
                invariant
                    0 <= y < height,
                    0 <= z <= depth,
                    0 <= width <= 2147483632,
                    chunks.wf(),
                    blocks.wf(),
                    chunks@.same_extent(old(chunks)@),
                    self.solver_s == old(self).solver_s,
                    self.solver_r.wf() && self.solver_r.channel_index() == 0
                        && self.solver_r.removals().len() == 0,
                    self.solver_g.wf() && self.solver_g.channel_index() == 1
                        && self.solver_g.removals().len() == 0,
                    self.solver_b.wf() && self.solver_b.channel_index() == 2
                        && self.solver_b.removals().len() == 0,
                    (Seeds {
                        world: chunks@,
                        red: self.solver_r.additions(),
                        green: self.solver_g.additions(),
                        blue: self.solver_b.additions(),
                    }) == emit_layer(layer, *blocks, width as int, y as int, z as int),
                decreases depth - z,
            {
                let ghost row = emit_layer(layer, *blocks, width as int, y as int, z as int);
                let mut x: i32 = 0;
                while x < width
                    invariant
                        0 <= x <= width,
                        chunks.wf(),
                        blocks.wf(),
                        chunks@.same_extent(old(chunks)@),
                        self.solver_s == old(self).solver_s,
                        self.solver_r.wf() && self.solver_r.channel_index() == 0
                            && self.solver_r.removals().len() == 0,
                        self.solver_g.wf() && self.solver_g.channel_index() == 1
                            && self.solver_g.removals().len() == 0,
                        self.solver_b.wf() && self.solver_b.channel_index() == 2
                            && self.solver_b.removals().len() == 0,
                        (Seeds {
                            world: chunks@,
                            red: self.solver_r.additions(),
                            green: self.solver_g.additions(),
                            blue: self.solver_b.additions(),
                        }) == emit_row(row, *blocks, y as int, z as int, x as int),
                    decreases width - x,
                {
                    let id = match chunks.get_voxel(x, y, z) {
                        Some(v) => Some(v.id),
                        None => None,
                    };
                    if let Some(id) = id {
                        let (er, eg, eb) = match blocks.get(id) {
                            Some(block) => (block.emission[0], block.emission[1],
                                block.emission[2]),
                            None => (0, 0, 0),
                        };
                        proof {
                            lemma_adding_state(self.solver_r, chunks@);
                        }
                        self.solver_r.add(x, y, z, Some(er as i32), chunks);
                        proof {
                            lemma_adding_state(self.solver_g, chunks@);
                        }
                        self.solver_g.add(x, y, z, Some(eg as i32), chunks);
                        proof {
                            lemma_adding_state(self.solver_b, chunks@);
                        }
                        self.solver_b.add(x, y, z, Some(eb as i32), chunks);
                    }
                    x = x + 1;
                }
                z = z + 1;
            }
            y = y + 1;
        }
    }

    /// Writes full sky light into the open part of every column.
    fn light_sky(chunks: &mut Chunks)
        requires
            old(chunks).wf(),
        ensures
            final(chunks).wf(),
            final(chunks)@.same_extent(old(chunks)@),
            final(chunks)@ == sky_all(
                old(chunks)@,
                old(chunks)@.w * 16,
                old(chunks)@.top(),
                old(chunks)@.d * 16,
            ),
    {
        let (width, _, depth) = extent_of(chunks);
        let ghost start = chunks@;
        let ghost top = chunks@.top();
        let mut z: i32 = 0;
        while z < depth
            invariant
                0 <= z <= depth,
                0 <= width <= 2147483632,
                chunks.wf(),
                chunks@.same_extent(start),
                top == start.top(),
                chunks@ == sky_all(start, width as int, top, z as int),
            decreases depth - z,
        {
            let ghost row = chunks@;
            let mut x: i32 = 0;
            while x < width
                invariant
                    0 <= x <= width,
                    chunks.wf(),
                    chunks@.same_extent(start),
                    top == start.top(),
                    chunks@ == sky_row(row, z as int, top, x as int),
                decreases width - x,
            {
                light_column(x, z, chunks);
                x = x + 1;
            }
            z = z + 1;
        }
    }

    /// Queues every sky-lit voxel of an open column that lies beside a dark
    /// voxel.
    fn seed_sky(&mut self, chunks: &mut Chunks)
        requires
            rests(old(self).solver_s, 3),
            old(chunks).wf(),
        ensures
            final(chunks).wf(),
            final(chunks)@.same_extent(old(chunks)@),
            final(self).solver_r == old(self).solver_r,
            final(self).solver_g == old(self).solver_g,
            final(self).solver_b == old(self).solver_b,
            final(self).solver_s.wf() && final(self).solver_s.channel_index() == 3
                && final(self).solver_s.removals().len() == 0,
            final(self).solver_s.state(final(chunks)@) == seed_all(
                idle(old(chunks)@),
                old(chunks)@.w * 16,
                old(chunks)@.top(),
                old(chunks)@.d * 16,
            ),
    {
        let (width, _, depth) = extent_of(chunks);
        let ghost start = idle(chunks@);
        let ghost top = chunks@.top();
        proof {
            lemma_idle_state(self.solver_s, chunks@);
        }
        let mut z: i32 = 0;
        while z < depth
            invariant
                0 <= z <= depth,
                0 <= width <= 2147483632,
                depth <= 2147483632,
                chunks.wf(),
                chunks@.same_extent(old(chunks)@),
                top == old(chunks)@.top(),
                self.solver_r == old(self).solver_r,
                self.solver_g == old(self).solver_g,
                self.solver_b == old(self).solver_b,
                self.solver_s.wf() && self.solver_s.channel_index() == 3
                    && self.solver_s.removals().len() == 0,
                self.solver_s.state(chunks@) == seed_all(start, width as int, top, z as int),
            decreases depth - z,
        {
            let ghost row = self.solver_s.state(chunks@);
            let mut x: i32 = 0;
            while x < width
                invariant
                    0 <= x <= width,
                    0 <= z < depth,
                    0 <= width <= 2147483632,
                    depth <= 2147483632,
                    chunks.wf(),
                    chunks@.same_extent(old(chunks)@),
                    top == old(chunks)@.top(),
                    self.solver_r == old(self).solver_r,
                    self.solver_g == old(self).solver_g,
                    self.solver_b == old(self).solver_b,
                    self.solver_s.wf() && self.solver_s.channel_index() == 3
                        && self.solver_s.removals().len() == 0,
                    self.solver_s.state(chunks@) == seed_row(row, z as int, top, x as int),
                decreases width - x,
            {
                seed_column_of(&mut self.solver_s, x, z, chunks);
                x = x + 1;
            }
            z = z + 1;
        }
    }

    /// Builds up the light of a world from its blocks: emitters first, then
    /// open sky, then propagation of red, green, blue and sky.
    pub fn on_world_loaded(&mut self, blocks: &BlockRegistry, chunks: &mut Chunks)
        requires
            old(self).wf(),
            old(chunks).wf(),
            blocks.wf(),
        ensures
            final(self).wf(),
            final(chunks).wf(),
            final(chunks)@ == world_lit(old(chunks)@, *blocks),
            all_air(old(chunks)@) ==> full_sky(final(chunks)@),
            dark(old(chunks)@) ==> forall|channel: int|
                is_channel(channel) ==> #[trigger] attenuated(final(chunks)@, *blocks, channel),
    {
        proof {
            if all_air(chunks@) {
                lemma_open_world_full_sky(chunks@, *blocks);
            }
            if dark(chunks@) {
                lemma_world_lit_attenuated(chunks@, *blocks);
            }
        }
        self.seed_emitters(blocks, chunks);
        Self::light_sky(chunks);
        self.seed_sky(chunks);
        proof {
            lemma_adding_state(self.solver_r, chunks@);
        }
        self.solver_r.solve(blocks, chunks);
        proof {
            lemma_adding_state(self.solver_g, chunks@);
        }
        self.solver_g.solve(blocks, chunks);
        proof {
            lemma_adding_state(self.solver_b, chunks@);
        }
        self.solver_b.solve(blocks, chunks);
        proof {
            lemma_adding_state(self.solver_s, chunks@);
        }
        self.solver_s.solve(blocks, chunks);
    }

    /// Updates the light after the voxel at (x, y, z) was edited and now
    /// holds block `id`.
    pub fn on_block_set(
        &mut self,
        x: i32,
        y: i32,
        z: i32,
        id: u8,
        blocks: &BlockRegistry,
        chunks: &mut Chunks,
    )
        requires
            old(self).wf(),
            old(chunks).wf(),
            blocks.wf(),
        ensures
            final(self).wf(),
            final(chunks).wf(),
            final(chunks)@ == after_block_set(
                old(chunks)@,
                *blocks,
                x as int,
                y as int,
                z as int,
                id,
            ),
            id != 0 && shut(old(chunks)@, *blocks, x as int, y as int, z as int)
                ==> final(chunks)@.level_at(x as int, y as int, z as int, 3) == 0,
            forall|channel: int|
                is_channel(channel) && id != 0 && #[trigger] attenuated(
                    old(chunks)@,
                    *blocks,
                    channel,
                ) && (channel < 3 ==> emission_of(*blocks, id, channel) <= 1) ==> dimmer(
                    final(chunks)@,
                    old(chunks)@,
                    channel,
                ),
            forall|channel: int|
                is_channel(channel) && id != 0 && attenuated(old(chunks)@, *blocks, channel)
                    && #[trigger] tidy_except(
                    old(chunks)@,
                    *blocks,
                    channel,
                    x as int,
                    y as int,
                    z as int,
                ) && (channel < 3 ==> emission_of(*blocks, id, channel) <= 1) ==> attenuated(
                    final(chunks)@,
                    *blocks,
                    channel,
                ) && tidy(final(chunks)@, *blocks, channel),
            forall|channel: int|
                is_channel(channel) && id == 0 && attenuated_but(
                    old(chunks)@,
                    *blocks,
                    channel,
                    Some((x as int, y as int, z as int)),
                ) && #[trigger] tidy(old(chunks)@, *blocks, channel) ==> attenuated(
                    final(chunks)@,
                    *blocks,
                    channel,
                ) && tidy(final(chunks)@, *blocks, channel),
    {
        proof {
            if id == 0 {
                assert forall|channel: int|
                    is_channel(channel) && attenuated_but(
                        chunks@,
                        *blocks,
                        channel,
                        Some((x as int, y as int, z as int)),
                    ) && #[trigger] tidy(chunks@, *blocks, channel) implies attenuated(
                    after_removal(chunks@, *blocks, x as int, y as int, z as int),
                    *blocks,
                    channel,
                ) && tidy(
                    after_removal(chunks@, *blocks, x as int, y as int, z as int),
                    *blocks,
                    channel,
                ) by {
                    lemma_removal_keeps_attenuation(
                        chunks@,
                        *blocks,
                        x as int,
                        y as int,
                        z as int,
                        channel,
                    );
                }
            } else {
                assert forall|channel: int|
                    is_channel(channel) && attenuated(chunks@, *blocks, channel)
                        && #[trigger] tidy_except(
                        chunks@,
                        *blocks,
                        channel,
                        x as int,
                        y as int,
                        z as int,
                    ) && (channel < 3 ==> emission_of(*blocks, id, channel) <= 1)
                        implies attenuated(
                    after_placement(chunks@, *blocks, x as int, y as int, z as int, id),
                    *blocks,
                    channel,
                ) && tidy(
                    after_placement(chunks@, *blocks, x as int, y as int, z as int, id),
                    *blocks,
                    channel,
                ) by {
                    lemma_placement_keeps_attenuation(
                        chunks@,
                        *blocks,
                        x as int,
                        y as int,
                        z as int,
                        id,
                        channel,
                    );
                }
            }
            if id != 0 {
                if shut(chunks@, *blocks, x as int, y as int, z as int) {
                    lemma_placement_darkens(chunks@, *blocks, x as int, y as int, z as int, id);
                }
                assert forall|channel: int|
                    is_channel(channel) && #[trigger] attenuated(chunks@, *blocks, channel) && (
                    channel < 3 ==> emission_of(*blocks, id, channel) <= 1) implies dimmer(
                    after_placement(chunks@, *blocks, x as int, y as int, z as int, id),
                    chunks@,
                    channel,
                ) by {
                    lemma_placement_dims(
                        chunks@,
                        *blocks,
                        x as int,
                        y as int,
                        z as int,
                        id,
                        channel,
                    );
                }
            }
        }
        if id == 0 {
            darken(&mut self.solver_r, x, y, z, blocks, chunks);
            darken(&mut self.solver_g, x, y, z, blocks, chunks);
            darken(&mut self.solver_b, x, y, z, blocks, chunks);
            let top = top_of(chunks);
            let above: u8 = if y < i32::MAX {
                chunks.get_light(x, y + 1, z, SKY)
            } else {
                proof {
                    if chunks@.in_world(x as int, y + 1, z as int) {
                        chunks@.lemma_slot(x as int, y + 1, z as int);
                    }
                }
                0
            };
            if above == 0xf {
                let from = if y <= top {
                    y
                } else {
                    top
                };
                refill_sky(&mut self.solver_s, x, z, from, blocks, chunks);
            }
            rekindle(&mut self.solver_r, x, y, z, blocks, chunks);
            rekindle(&mut self.solver_g, x, y, z, blocks, chunks);
            rekindle(&mut self.solver_b, x, y, z, blocks, chunks);
            rekindle(&mut self.solver_s, x, y, z, blocks, chunks);
        } else {
            darken(&mut self.solver_r, x, y, z, blocks, chunks);
            darken(&mut self.solver_g, x, y, z, blocks, chunks);
            darken(&mut self.solver_b, x, y, z, blocks, chunks);
            darken(&mut self.solver_s, x, y, z, blocks, chunks);
            let top = top_of(chunks);
            let from: i32 = if y <= 0 {
                -1
            } else if y <= top {
                y - 1
            } else {
                top
            };
            cast_shadow(&mut self.solver_s, x, z, from, blocks, chunks);
            let (er, eg, eb) = match blocks.get(id) {
                Some(block) => (block.emission[0], block.emission[1], block.emission[2]),
                None => (0, 0, 0),
            };
            kindle(&mut self.solver_r, x, y, z, er, blocks, chunks);
            kindle(&mut self.solver_g, x, y, z, eg, blocks, chunks);
            kindle(&mut self.solver_b, x, y, z, eb, blocks, chunks);
        }
    }
}

/// Clearing the light keeps a world well formed.
pub proof fn lemma_cleared_wf(world: WorldView)
    requires
        world.wf(),
    ensures
        world.cleared().wf(),
{
    let after = world.cleared();
    assert forall|k: int| 0 <= k < after.chunks.len() implies {
        let c = #[trigger] after.chunks[k];
        &&& c.wf()
        &&& after.has_chunk(c.x, c.y, c.z)
        &&& after.chunk_index(c.x, c.y, c.z) == k
    } by {
        let c = world.chunks[k];
        assert(c.wf());
    }
}

} // verus!
