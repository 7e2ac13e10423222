//! Incremental breadth-first propagation of one light channel.
//!
//! A solver owns two first-in-first-out queues. Entries of the removal queue
//! stand for voxels that have just gone dark and carry the level they had;
//! entries of the addition queue stand for voxels whose level may spread to
//! their neighbours. `solve` drains the removal queue, then the addition
//! queue.

use vstd::prelude::*;
use std::collections::VecDeque;
use crate::lighting::calm_laws::{calm, lemma_solved_calm, tidy};
use crate::lighting::laws::{attenuated, gentle_or_queued, lemma_solved_attenuated};
use crate::lighting::lightmap::is_channel;
use crate::voxels::BlockRegistry;
use crate::voxels::chunks::Chunks;
use crate::voxels::world::WorldView;

verus! {

/// A queued voxel position together with a light level.
#[derive(Clone, Copy, Debug)]
pub struct LightEntry {
    pub x: i32,
    pub y: i32,
    pub z: i32,
    pub light: u8,
}

/// Everything a solver step reads and writes: the world and both queues.
#[verifier::ext_equal]
pub struct SolverState {
    pub world: WorldView,
    pub rem: Seq<LightEntry>,
    pub add: Seq<LightEntry>,
}

/// Offset of neighbour number `i` of a voxel, for `i` in `0..6`.
pub open spec fn neighbor_offset(i: int) -> (int, int, int) {
    if i == 0 {
        (0, 0, 1)
    } else if i == 1 {
        (0, 0, -1)
    } else if i == 2 {
        (0, 1, 0)
    } else if i == 3 {
        (0, -1, 0)
    } else if i == 4 {
        (1, 0, 0)
    } else {
        (-1, 0, 0)
    }
}

/// Position of neighbour number `i` of the voxel at (x, y, z).
pub open spec fn neighbor(x: int, y: int, z: int, i: int) -> (int, int, int) {
    let (dx, dy, dz) = neighbor_offset(i);
    (x + dx, y + dy, z + dz)
}

/// A state with the given world and empty queues.
pub open spec fn idle(world: WorldView) -> SolverState {
    SolverState { world, rem: Seq::empty(), add: Seq::empty() }
}

/// Whether both queues are empty.
pub open spec fn settled(s: SolverState) -> bool {
    s.rem.len() == 0 && s.add.len() == 0
}

/// Whether every level in `queue` lies between `least` and 15.
pub open spec fn levels_within(queue: Seq<LightEntry>, least: int) -> bool {
    forall|k: int| 0 <= k < queue.len() ==> least <= (#[trigger] queue[k]).light <= 15
}

/// Whether every queued level is a light level and every queued removal
/// carries a positive one.
pub open spec fn queues_wf(s: SolverState) -> bool {
    levels_within(s.rem, 1) && levels_within(s.add, 0)
}

/// The state after a request to light the voxel at (x, y, z). With an
/// explicit `emission` that level is used, otherwise the level stored at the
/// voxel. Levels of at most 1 cannot spread and positions outside the world
/// are dropped: both leave the state alone. Otherwise the level is stored,
/// the chunk marked as modified and the voxel queued for addition.
pub open spec fn seeded(
    s: SolverState,
    channel: int,
    x: int,
    y: int,
    z: int,
    emission: Option<int>,
) -> SolverState {
    let level = match emission {
        Some(e) => e,
        None => s.world.level_at(x, y, z, channel),
    };
    if level <= 1 || !s.world.in_world(x, y, z) {
        s
    } else {
        SolverState {
            world: s.world.with_level(x, y, z, channel, level),
            add: s.add.push(LightEntry { x: x as i32, y: y as i32, z: z as i32,
                light: level as u8 }),
            ..s
        }
    }
}

/// The state after a request to darken the voxel at (x, y, z). A voxel that
/// is already dark, or outside the world, leaves the state alone. Otherwise
/// its level drops to zero, the chunk is marked as modified and the voxel is
/// queued for removal with the level it had.
pub open spec fn unlit(s: SolverState, channel: int, x: int, y: int, z: int) -> SolverState {
    let level = s.world.level_at(x, y, z, channel);
    if level == 0 || !s.world.in_world(x, y, z) {
        s
    } else {
        SolverState {
            world: s.world.with_level(x, y, z, channel, 0),
            rem: s.rem.push(LightEntry { x: x as i32, y: y as i32, z: z as i32,
                light: level as u8 }),
            ..s
        }
    }
}

/// Effect of a removal entry on its neighbour number `i`. A neighbour lit
/// exactly one level below the entry was lit by it: it goes dark and is
/// queued for removal. A neighbour at least as bright as the entry has a
/// source of its own: it is queued for addition.
pub open spec fn rem_visit(s: SolverState, channel: int, e: LightEntry, i: int) -> SolverState {
    let (x, y, z) = neighbor(e.x as int, e.y as int, e.z as int, i);
    let level = s.world.level_at(x, y, z, channel);
    if !s.world.in_world(x, y, z) {
        s
    } else if level != 0 && level == e.light - 1 {
        SolverState {
            world: s.world.with_level(x, y, z, channel, 0),
            rem: s.rem.push(LightEntry { x: x as i32, y: y as i32, z: z as i32,
                light: level as u8 }),
            ..s
        }
    } else if level >= e.light {
        SolverState {
            add: s.add.push(LightEntry { x: x as i32, y: y as i32, z: z as i32,
                light: level as u8 }),
            ..s
        }
    } else {
        s
    }
}

/// Effect of a removal entry on its first `n` neighbours.
pub open spec fn rem_visits(s: SolverState, channel: int, e: LightEntry, n: int) -> SolverState
    decreases n,
{
    if n <= 0 {
        s
    } else {
        rem_visit(rem_visits(s, channel, e, n - 1), channel, e, n - 1)
    }
}

/// Effect of an addition entry on its neighbour number `i`. Light enters a
/// neighbour whose block lets light pass and whose level is at least two
/// below the entry: the neighbour takes the entry's level less one and is
/// queued for addition.
pub open spec fn add_visit(
    s: SolverState,
    blocks: BlockRegistry,
    channel: int,
    e: LightEntry,
    i: int,
) -> SolverState {
    let (x, y, z) = neighbor(e.x as int, e.y as int, e.z as int, i);
    let level = s.world.level_at(x, y, z, channel);
    if s.world.in_world(x, y, z) && blocks.passes_light(s.world.block_at(x, y, z)->0) && level + 2
        <= e.light {
        SolverState {
            world: s.world.with_level(x, y, z, channel, e.light - 1),
            add: s.add.push(
                LightEntry { x: x as i32, y: y as i32, z: z as i32, light: (e.light - 1) as u8 },
            ),
            ..s
        }
    } else {
        s
    }
}

/// Effect of an addition entry on its first `n` neighbours.
pub open spec fn add_visits(
    s: SolverState,
    blocks: BlockRegistry,
    channel: int,
    e: LightEntry,
    n: int,
) -> SolverState
    decreases n,
{
    if n <= 0 {
        s
    } else {
        add_visit(add_visits(s, blocks, channel, e, n - 1), blocks, channel, e, n - 1)
    }
}

/// The state with the oldest removal entry taken off its queue.
pub open spec fn popped_rem(s: SolverState) -> SolverState {
    SolverState { rem: s.rem.drop_first(), ..s }
}

/// The state with the oldest addition entry taken off its queue.
pub open spec fn popped_add(s: SolverState) -> SolverState {
    SolverState { add: s.add.drop_first(), ..s }
}

/// One step of the solver: the oldest removal entry is taken and applied to
/// its six neighbours; when no removal is queued, the oldest addition entry
/// is taken and, if its level exceeds 1, applied to its six neighbours; when
/// nothing is queued the state stays as it is.
pub open spec fn step(s: SolverState, blocks: BlockRegistry, channel: int) -> SolverState {
    if s.rem.len() > 0 {
        rem_visits(popped_rem(s), channel, s.rem[0], 6)
    } else if s.add.len() > 0 {
        if s.add[0].light <= 1 {
            popped_add(s)
        } else {
            add_visits(popped_add(s), blocks, channel, s.add[0], 6)
        }
    } else {
        s
    }
}

/// The state after `n` steps.
pub open spec fn run(s: SolverState, blocks: BlockRegistry, channel: int, n: nat) -> SolverState
    decreases n,
{
    if n == 0 {
        s
    } else {
        run(step(s, blocks, channel), blocks, channel, (n - 1) as nat)
    }
}

/// The settled state that stepping leads to from `s`.
pub open spec fn solved(s: SolverState, blocks: BlockRegistry, channel: int) -> SolverState {
    run(s, blocks, channel, choose|n: nat| settled(run(s, blocks, channel, n)))
}

/// Steps compose: `a + b` steps are `a` steps followed by `b` steps.
pub proof fn lemma_run_split(s: SolverState, blocks: BlockRegistry, channel: int, a: nat, b: nat)
    ensures
        run(s, blocks, channel, a + b) == run(run(s, blocks, channel, a), blocks, channel, b),
    decreases a,
{
    if a > 0 {
        lemma_run_split(step(s, blocks, channel), blocks, channel, (a - 1) as nat, b);
    }
}

/// A settled state stays as it is however many steps are taken.
pub proof fn lemma_run_settled(s: SolverState, blocks: BlockRegistry, channel: int, n: nat)
    requires
        settled(s),
    ensures
        run(s, blocks, channel, n) == s,
    decreases n,
{
    if n > 0 {
        lemma_run_settled(s, blocks, channel, (n - 1) as nat);
    }
}

/// Whatever number of steps first settles a state, the settled state is the
/// same: it is `solved`.
pub proof fn lemma_solved_unique(s: SolverState, blocks: BlockRegistry, channel: int, n: nat)
    requires
        settled(run(s, blocks, channel, n)),
    ensures
        solved(s, blocks, channel) == run(s, blocks, channel, n),
        settled(solved(s, blocks, channel)),
{
    let m = choose|m: nat| settled(run(s, blocks, channel, m));
    if m >= n {
        lemma_run_split(s, blocks, channel, n, (m - n) as nat);
        lemma_run_settled(run(s, blocks, channel, n), blocks, channel, (m - n) as nat);
    } else {
        lemma_run_split(s, blocks, channel, m, (n - m) as nat);
        lemma_run_settled(run(s, blocks, channel, m), blocks, channel, (n - m) as nat);
    }
}

/// One more step after `n` steps is `n + 1` steps.
pub proof fn lemma_run_then_step(s: SolverState, blocks: BlockRegistry, channel: int, n: nat)
    ensures
        run(s, blocks, channel, n + 1) == step(run(s, blocks, channel, n), blocks, channel),
{
    lemma_run_split(s, blocks, channel, n, 1);
    let t = run(s, blocks, channel, n);
    assert(run(t, blocks, channel, 1) == run(step(t, blocks, channel), blocks, channel, 0));
}

} // verus!

verus! {

/// Solver for one light channel.
pub struct LightSolver {
    add_queue: VecDeque<LightEntry>,
    rem_queue: VecDeque<LightEntry>,
    channel: i32,
}

/// Position of neighbour number `i` of the voxel at (x, y, z), unless one of
/// its coordinates leaves the 32-bit range.
fn neighbor_of(x: i32, y: i32, z: i32, i: usize) -> (r: Option<(i32, i32, i32)>)
    requires
        i < 6,
    ensures
        match r {
            Some(p) => (p.0 as int, p.1 as int, p.2 as int) == neighbor(
                x as int,
                y as int,
                z as int,
                i as int,
            ),
            None => {
                let (nx, ny, nz) = neighbor(x as int, y as int, z as int, i as int);
                nx < 0 || ny < 0 || nz < 0 || nx > i32::MAX || ny > i32::MAX || nz > i32::MAX
            },
        },
{
    if i == 0 {
        if z < i32::MAX {
            Some((x, y, z + 1))
        } else {
            None
        }
    } else if i == 1 {
        if z > i32::MIN {
            Some((x, y, z - 1))
        } else {
            None
        }
    } else if i == 2 {
        if y < i32::MAX {
            Some((x, y + 1, z))
        } else {
            None
        }
    } else if i == 3 {
        if y > i32::MIN {
            Some((x, y - 1, z))
        } else {
            None
        }
    } else if i == 4 {
        if x < i32::MAX {
            Some((x + 1, y, z))
        } else {
            None
        }
    } else {
        if x > i32::MIN {
            Some((x - 1, y, z))
        } else {
            None
        }
    }
}

impl LightSolver {
    /// Index of the channel this solver works on.
    pub closed spec fn channel_index(&self) -> int {
        self.channel as int
    }

    /// Entries waiting in the addition queue, oldest first.
    pub closed spec fn additions(&self) -> Seq<LightEntry> {
        self.add_queue@
    }

    /// Entries waiting in the removal queue, oldest first.
    pub closed spec fn removals(&self) -> Seq<LightEntry> {
        self.rem_queue@
    }

    /// The solver's queues together with a world.
    pub open spec fn state(&self, world: WorldView) -> SolverState {
        SolverState { world, rem: self.removals(), add: self.additions() }
    }

    /// The solver works on one of the four channels and its queues hold
    /// light levels only, positive ones in the removal queue.
    pub open spec fn wf(&self) -> bool {
        &&& is_channel(self.channel_index())
        &&& levels_within(self.removals(), 1)
        &&& levels_within(self.additions(), 0)
    }

    /// Whether both queues are empty.
    pub open spec fn is_idle(&self) -> bool {
        self.removals().len() == 0 && self.additions().len() == 0
    }

    /// A solver for `channel` with empty queues.
    pub fn new(channel: i32) -> (r: Self)
        requires
            is_channel(channel as int),
        ensures
            r.wf(),
            r.is_idle(),
            r.channel_index() == channel,
    {
        Self { add_queue: VecDeque::new(), rem_queue: VecDeque::new(), channel }
    }

    /// Numbers of entries waiting in the removal and in the addition queue.
    pub fn pending(&self) -> (r: (usize, usize))
        ensures
            r.0 == self.removals().len(),
            r.1 == self.additions().len(),
    {
        (self.rem_queue.len(), self.add_queue.len())
    }

    /// Asks for the voxel at (x, y, z) to be lit: at `emission` if given,
    /// else at the level it already stores. See `seeded` for the effect.
    pub fn add(&mut self, x: i32, y: i32, z: i32, emission: Option<i32>, chunks: &mut Chunks)
        requires
            old(self).wf(),
            old(chunks).wf(),
            emission is Some ==> emission->0 <= 15,
        ensures
            final(self).wf(),
            final(chunks).wf(),
            final(self).channel_index() == old(self).channel_index(),
            final(self).state(final(chunks)@) == seeded(
                old(self).state(old(chunks)@),
                old(self).channel_index(),
                x as int,
                y as int,
                z as int,
                match emission {
                    Some(e) => Some(e as int),
                    None => None,
                },
            ),
    {
        let level: i32 = match emission {
            Some(e) => e,
            None => chunks.get_light(x, y, z, self.channel) as i32,
        };
        if level <= 1 {
            return ;
        }
        if chunks.calculate_indices(x, y, z).is_none() {
            return ;
        }
        let entry = LightEntry { x, y, z, light: level as u8 };
        self.add_queue.push_back(entry);
        chunks.put_light(x, y, z, self.channel, level as u8);
    }

    /// Asks for the voxel at (x, y, z) to spread the level it stores.
    pub fn _add_light(&mut self, x: i32, y: i32, z: i32, chunks: &mut Chunks)
        requires
            old(self).wf(),
            old(chunks).wf(),
        ensures
            final(self).wf(),
            final(chunks).wf(),
            final(self).channel_index() == old(self).channel_index(),
            final(self).state(final(chunks)@) == seeded(
                old(self).state(old(chunks)@),
                old(self).channel_index(),
                x as int,
                y as int,
                z as int,
                None,
            ),
    {
        self.add(x, y, z, None, chunks);
    }

    /// Asks for the voxel at (x, y, z) to go dark. See `unlit` for the
    /// effect.
    pub fn remove(&mut self, x: i32, y: i32, z: i32, chunks: &mut Chunks)
        requires
            old(self).wf(),
            old(chunks).wf(),
        ensures
            final(self).wf(),
            final(chunks).wf(),
            final(self).channel_index() == old(self).channel_index(),
            final(self).state(final(chunks)@) == unlit(
                old(self).state(old(chunks)@),
                old(self).channel_index(),
                x as int,
                y as int,
                z as int,
            ),
    {
        let level = chunks.get_light(x, y, z, self.channel);
        if level == 0 {
            return ;
        }
        let entry = LightEntry { x, y, z, light: level };
        self.rem_queue.push_back(entry);
        chunks.put_light(x, y, z, self.channel, 0);
    }

    /// Applies a removal entry to its six neighbours.
    fn spread_darkness(&mut self, entry: LightEntry, chunks: &mut Chunks)
        requires
            old(self).wf(),
            old(chunks).wf(),
            1 <= entry.light <= 15,
        ensures
            final(self).wf(),
            final(chunks).wf(),
            final(self).channel_index() == old(self).channel_index(),
            final(self).state(final(chunks)@) == rem_visits(
                old(self).state(old(chunks)@),
                old(self).channel_index(),
                entry,
                6,
            ),
            2 * final(chunks)@.total_level(old(self).channel_index()) + final(self).removals().len()
                <= 2 * old(chunks)@.total_level(old(self).channel_index()) + old(
                self,
            ).removals().len(),
    {
        let ghost base = self.state(chunks@);
        let ghost ch = self.channel as int;
        let mut i: usize = 0;
        while i < 6
            invariant
                i <= 6,
                self.wf(),
                chunks.wf(),
                1 <= entry.light <= 15,
                self.channel == ch,
                base == old(self).state(old(chunks)@),
                self.state(chunks@) == rem_visits(base, ch, entry, i as int),
                2 * chunks@.total_level(ch) + self.rem_queue@.len() <= 2 * base.world.total_level(
                    ch,
                ) + base.rem.len(),
            decreases 6 - i,
        {
            let ghost before = self.state(chunks@);
            proof {
                let (nx, ny, nz) = neighbor(entry.x as int, entry.y as int, entry.z as int,
                    i as int);
                if chunks@.in_world(nx, ny, nz) {
                    chunks@.lemma_slot(nx, ny, nz);
                }
                chunks@.lemma_total_with_level(nx, ny, nz, ch, 0);
            }
            match neighbor_of(entry.x, entry.y, entry.z, i) {
                Some((x, y, z)) => {
                    let level = chunks.get_light(x, y, z, self.channel);
                    if level != 0 && level == entry.light - 1 {
                        self.rem_queue.push_back(LightEntry { x, y, z, light: level });
                        chunks.put_light(x, y, z, self.channel, 0);
                    } else if level >= entry.light {
                        self.add_queue.push_back(LightEntry { x, y, z, light: level });
                    }
                },
                None => {},
            }
            assert(self.state(chunks@) == rem_visit(before, ch, entry, i as int));
            i = i + 1;
        }
    }

    /// Applies an addition entry to its six neighbours.
    fn spread_light(&mut self, entry: LightEntry, blocks: &BlockRegistry, chunks: &mut Chunks)
        requires
            old(self).wf(),
            old(chunks).wf(),
            blocks.wf(),
            2 <= entry.light <= 15,
        ensures
            final(self).wf(),
            final(chunks).wf(),
            final(self).channel_index() == old(self).channel_index(),
            final(self).removals() == old(self).removals(),
            final(self).state(final(chunks)@) == add_visits(
                old(self).state(old(chunks)@),
                *blocks,
                old(self).channel_index(),
                entry,
                6,
            ),
            final(chunks)@.level_capacity() == old(chunks)@.level_capacity(),
            final(self).additions().len() - 2 * final(chunks)@.total_level(
                old(self).channel_index(),
            ) <= old(self).additions().len() - 2 * old(chunks)@.total_level(
                old(self).channel_index(),
            ),
    {
        let ghost base = self.state(chunks@);
        let ghost ch = self.channel as int;
        let mut i: usize = 0;
        while i < 6
            invariant
                i <= 6,
                self.wf(),
                chunks.wf(),
                blocks.wf(),
                2 <= entry.light <= 15,
                self.channel == ch,
                base == old(self).state(old(chunks)@),
                self.rem_queue@ == base.rem,
                self.state(chunks@) == add_visits(base, *blocks, ch, entry, i as int),
                chunks@.level_capacity() == base.world.level_capacity(),
                self.add_queue@.len() - 2 * chunks@.total_level(ch) <= base.add.len() - 2
                    * base.world.total_level(ch),
            decreases 6 - i,
        {
            let ghost before = self.state(chunks@);
            proof {
                let (nx, ny, nz) = neighbor(entry.x as int, entry.y as int, entry.z as int,
                    i as int);
                if chunks@.in_world(nx, ny, nz) {
                    chunks@.lemma_slot(nx, ny, nz);
                }
                chunks@.lemma_total_with_level(nx, ny, nz, ch, entry.light - 1);
            }
            match neighbor_of(entry.x, entry.y, entry.z, i) {
                Some((x, y, z)) => {
                    let level = chunks.get_light(x, y, z, self.channel);
                    let passing = match chunks.get_voxel(x, y, z) {
                        Some(v) => v.id == 0 || match blocks.get(v.id) {
                            Some(block) => block.light_passing,
                            None => false,
                        },
                        None => false,
                    };
                    if passing && level + 2 <= entry.light {
                        chunks.put_light(x, y, z, self.channel, entry.light - 1);
                        self.add_queue.push_back(LightEntry { x, y, z, light: entry.light - 1 });
                    }
                },
                None => {},
            }
            assert(self.state(chunks@) == add_visit(before, *blocks, ch, entry, i as int));
            i = i + 1;
        }
    }

    /// Propagates until both queues are empty: first every queued removal
    /// with all the removals it causes, then every queued addition with all
    /// the additions it causes. The outcome is the state `solved`.
    pub fn solve(&mut self, blocks: &BlockRegistry, chunks: &mut Chunks)
        requires
            old(self).wf(),
            old(chunks).wf(),
            blocks.wf(),
        ensures
            final(self).wf(),
            final(chunks).wf(),
            final(self).is_idle(),
            final(self).channel_index() == old(self).channel_index(),
            final(self).state(final(chunks)@) == solved(
                old(self).state(old(chunks)@),
                *blocks,
                old(self).channel_index(),
            ),
            old(self).removals().len() == 0 && gentle_or_queued(
                old(self).state(old(chunks)@),
                *blocks,
                old(self).channel_index(),
                None,
            ) ==> attenuated(final(chunks)@, *blocks, old(self).channel_index()),
            calm(
                old(self).state(old(chunks)@),
                old(chunks)@,
                *blocks,
                old(self).channel_index(),
                None,
            ) ==> attenuated(final(chunks)@, *blocks, old(self).channel_index()) && tidy(
                final(chunks)@,
                *blocks,
                old(self).channel_index(),
            ),
    {
        let ghost start = self.state(chunks@);
        proof {
            if self.rem_queue@.len() == 0 && gentle_or_queued(
                start,
                *blocks,
                self.channel as int,
                None,
            ) {
                lemma_solved_attenuated(start, *blocks, self.channel as int);
            }
            if calm(start, chunks@, *blocks, self.channel as int, None) {
                lemma_solved_calm(start, *blocks, self.channel as int, None);
            }
        }
        let ghost ch = self.channel as int;
        let ghost mut steps: nat = 0;
        while self.rem_queue.len() > 0
            invariant
                self.wf(),
                chunks.wf(),
                blocks.wf(),
                self.channel == ch,
                self.state(chunks@) == run(start, *blocks, ch, steps),
            decreases 2 * chunks@.total_level(ch) + self.rem_queue@.len(),
        {
            proof {
                chunks@.lemma_total_bounds(ch);
                lemma_run_then_step(start, *blocks, ch, steps);
                steps = steps + 1;
            }
            let entry = self.rem_queue.pop_front().unwrap();
            self.spread_darkness(entry, chunks);
            proof {
                chunks@.lemma_total_bounds(ch);
            }
        }
        while self.add_queue.len() > 0
            invariant
                self.wf(),
                chunks.wf(),
                blocks.wf(),
                self.channel == ch,
                self.rem_queue@.len() == 0,
                self.state(chunks@) == run(start, *blocks, ch, steps),
            decreases 2 * (chunks@.level_capacity() - chunks@.total_level(ch))
                + self.add_queue@.len(),
        {
            proof {
                chunks@.lemma_total_bounds(ch);
                lemma_run_then_step(start, *blocks, ch, steps);
                steps = steps + 1;
            }
            let entry = self.add_queue.pop_front().unwrap();
            if entry.light > 1 {
                self.spread_light(entry, blocks, chunks);
            }
            proof {
                chunks@.lemma_total_bounds(ch);
            }
        }
        proof {
            lemma_solved_unique(start, *blocks, ch, steps);
        }
    }
}

} // verus!
