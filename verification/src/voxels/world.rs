//! Mathematical model of a chunked voxel world.

use vstd::prelude::*;
use crate::lighting::lightmap::{channel_level, is_channel, is_level, lemma_with_channel,
    with_channel};
use crate::voxels::ChunkView;
use crate::voxels::coords::{chunk_of, lemma_local_index, lemma_split_injective, local_index,
    local_of};

verus! {

/// Position of a world coordinate triple inside its chunk's voxel array.
pub open spec fn voxel_slot(x: int, y: int, z: int) -> int {
    local_index(local_of(x), local_of(y), local_of(z))
}

/// Index of chunk coordinate (cx, cy, cz) in a grid that is `w` chunks wide
/// and `d` chunks deep, in (y, z, x) row-major order.
pub open spec fn grid_index(w: int, d: int, cx: int, cy: int, cz: int) -> int {
    (cy * d + cz) * w + cx
}

/// Grid indices of coordinates inside a `w` x `h` x `d` grid lie below the
/// number of chunks, and so do the partial sums that lead to them.
pub proof fn lemma_grid_index_bounds(w: int, h: int, d: int, cx: int, cy: int, cz: int)
    requires
        0 <= cx < w,
        0 <= cy < h,
        0 <= cz < d,
    ensures
        0 <= cy * d <= cy * d + cz < h * d,
        0 <= (cy * d + cz) * w <= grid_index(w, d, cx, cy, cz) < w * h * d,
        h * d <= w * h * d,
{
    assert(0 <= cy * d && cy * d + d <= h * d) by (nonlinear_arith)
        requires
            0 <= cy < h,
            0 < d,
    ;
    let r = cy * d + cz;
    let n = h * d;
    assert(0 <= r * w && r * w + w <= n * w) by (nonlinear_arith)
        requires
            0 <= r < n,
            0 < w,
    ;
    assert(n * w == w * h * d && n <= n * w) by (nonlinear_arith)
        requires
            n == h * d,
            0 < w,
            0 <= n,
    ;
}

/// Distinct coordinates inside a grid have distinct grid indices.
pub proof fn lemma_grid_index_injective(
    w: int,
    d: int,
    ax: int,
    ay: int,
    az: int,
    bx: int,
    by: int,
    bz: int,
)
    requires
        0 <= ax < w,
        0 <= bx < w,
        0 <= az < d,
        0 <= bz < d,
        grid_index(w, d, ax, ay, az) == grid_index(w, d, bx, by, bz),
    ensures
        ax == bx,
        ay == by,
        az == bz,
{
    let ra = ay * d + az;
    let rb = by * d + bz;
    assert(ra == rb) by (nonlinear_arith)
        requires
            ra * w + ax == rb * w + bx,
            0 <= ax < w,
            0 <= bx < w,
    ;
    assert(ay == by) by (nonlinear_arith)
        requires
            ay * d + az == by * d + bz,
            0 <= az < d,
            0 <= bz < d,
    ;
}

/// Mathematical content of a world: the extent of its chunk grid and the
/// chunks in (y, z, x) row-major order.
#[verifier::ext_equal]
pub struct WorldView {
    pub w: int,
    pub h: int,
    pub d: int,
    pub chunks: Seq<ChunkView>,
}

impl WorldView {
    /// Whether chunk coordinate (cx, cy, cz) lies inside the grid.
    pub open spec fn has_chunk(self, cx: int, cy: int, cz: int) -> bool {
        0 <= cx < self.w && 0 <= cy < self.h && 0 <= cz < self.d
    }

    /// Index of chunk coordinate (cx, cy, cz) in the chunk sequence.
    pub open spec fn chunk_index(self, cx: int, cy: int, cz: int) -> int {
        grid_index(self.w, self.d, cx, cy, cz)
    }

    /// Whether the voxel at world coordinate (x, y, z) belongs to a chunk of
    /// the grid.
    pub open spec fn in_world(self, x: int, y: int, z: int) -> bool {
        self.has_chunk(chunk_of(x), chunk_of(y), chunk_of(z))
    }

    /// Index of the chunk that holds world coordinate (x, y, z).
    pub open spec fn chunk_slot(self, x: int, y: int, z: int) -> int {
        self.chunk_index(chunk_of(x), chunk_of(y), chunk_of(z))
    }

    /// The grid fits 32-bit world coordinates and chunk indices, and chunk
    /// number `i` is a full chunk that knows its own grid coordinate.
    pub open spec fn wf(self) -> bool {
        &&& 0 <= self.w <= 134217727
        &&& 0 <= self.h <= 134217727
        &&& 0 <= self.d <= 134217727
        &&& self.w * self.h * self.d <= 0x7FFF_FFFF
        &&& self.chunks.len() == self.w * self.h * self.d
        &&& forall|i: int|
            0 <= i < self.chunks.len() ==> {
                let c = #[trigger] self.chunks[i];
                &&& c.wf()
                &&& self.has_chunk(c.x, c.y, c.z)
                &&& self.chunk_index(c.x, c.y, c.z) == i
            }
    }

    /// Block id stored at world coordinate (x, y, z); absent outside the grid.
    pub open spec fn block_at(self, x: int, y: int, z: int) -> Option<u8> {
        if self.in_world(x, y, z) {
            Some(self.chunks[self.chunk_slot(x, y, z)].ids[voxel_slot(x, y, z)])
        } else {
            None
        }
    }

    /// Light level of `channel` at world coordinate (x, y, z); zero outside
    /// the grid.
    pub open spec fn level_at(self, x: int, y: int, z: int, channel: int) -> int {
        if self.in_world(x, y, z) {
            channel_level(self.chunks[self.chunk_slot(x, y, z)].lights[voxel_slot(x, y, z)],
                channel)
        } else {
            0
        }
    }

    /// The world with the chunk at (cx, cy, cz) marked as modified; the same
    /// world if there is no such chunk.
    pub open spec fn with_modified(self, cx: int, cy: int, cz: int) -> WorldView {
        if self.has_chunk(cx, cy, cz) {
            let i = self.chunk_index(cx, cy, cz);
            WorldView {
                chunks: self.chunks.update(i, ChunkView { modified: true, ..self.chunks[i] }),
                ..self
            }
        } else {
            self
        }
    }

    /// The world with `level` stored in `channel` at (x, y, z) and the chunk
    /// of that voxel marked as modified; the same world outside the grid.
    pub open spec fn with_level(self, x: int, y: int, z: int, channel: int, level: int)
        -> WorldView {
        if self.in_world(x, y, z) {
            let i = self.chunk_slot(x, y, z);
            let j = voxel_slot(x, y, z);
            let c = self.chunks[i];
            WorldView {
                chunks: self.chunks.update(
                    i,
                    ChunkView {
                        modified: true,
                        lights: c.lights.update(j, with_channel(c.lights[j], channel, level)),
                        ..c
                    },
                ),
                ..self
            }
        } else {
            self
        }
    }

    /// The world with block `id` stored at (x, y, z), flags untouched; the
    /// same world outside the grid.
    pub open spec fn with_id(self, x: int, y: int, z: int, id: u8) -> WorldView {
        if self.in_world(x, y, z) {
            let i = self.chunk_slot(x, y, z);
            let j = voxel_slot(x, y, z);
            let c = self.chunks[i];
            WorldView {
                chunks: self.chunks.update(
                    i,
                    ChunkView { ids: c.ids.update(j, id), ..c },
                ),
                ..self
            }
        } else {
            self
        }
    }

    /// The world after an edit that writes block `id` at (x, y, z): the
    /// voxel's chunk is marked as modified, and so is each neighbouring chunk
    /// that shares a face with the voxel.
    pub open spec fn with_block(self, x: int, y: int, z: int, id: u8) -> WorldView {
        if self.in_world(x, y, z) {
            let cx = chunk_of(x);
            let cy = chunk_of(y);
            let cz = chunk_of(z);
            let w0 = self.with_id(x, y, z, id).with_modified(cx, cy, cz);
            let w1 = if local_of(x) == 0 {
                w0.with_modified(cx - 1, cy, cz)
            } else {
                w0
            };
            let w2 = if local_of(y) == 0 {
                w1.with_modified(cx, cy - 1, cz)
            } else {
                w1
            };
            let w3 = if local_of(z) == 0 {
                w2.with_modified(cx, cy, cz - 1)
            } else {
                w2
            };
            let w4 = if local_of(x) == 15 {
                w3.with_modified(cx + 1, cy, cz)
            } else {
                w3
            };
            let w5 = if local_of(y) == 15 {
                w4.with_modified(cx, cy + 1, cz)
            } else {
                w4
            };
            if local_of(z) == 15 {
                w5.with_modified(cx, cy, cz + 1)
            } else {
                w5
            }
        } else {
            self
        }
    }

    /// Block ids of all chunks in storage order, 4096 per chunk.
    pub open spec fn bytes(self) -> Seq<u8> {
        Seq::new(
            (self.chunks.len() * 4096) as nat,
            |i: int| self.chunks[i / 4096].ids[i % 4096],
        )
    }

    /// The world after loading block ids from `bytes`: chunk number `i`
    /// takes bytes `4096 * i .. 4096 * (i + 1)` and is marked as modified;
    /// light levels stay as they were.
    pub open spec fn loaded(self, bytes: Seq<u8>) -> WorldView {
        WorldView {
            chunks: Seq::new(
                self.chunks.len(),
                |i: int|
                    ChunkView {
                        modified: true,
                        ids: bytes.subrange(4096 * i, 4096 * i + 4096),
                        ..self.chunks[i]
                    },
            ),
            ..self
        }
    }

    /// The world with every light level at zero and every chunk marked as
    /// modified.
    pub open spec fn cleared(self) -> WorldView {
        WorldView {
            chunks: Seq::new(
                self.chunks.len(),
                |i: int|
                    ChunkView {
                        modified: true,
                        lights: Seq::new(4096, |k: int| 0u16),
                        ..self.chunks[i]
                    },
            ),
            ..self
        }
    }

    /// World coordinate of the topmost voxel layer; -1 in a world of no height.
    pub open spec fn top(self) -> int {
        self.h * 16 - 1
    }

    /// The world with the mark taken off chunk number `index`.
    pub open spec fn with_unmarked(self, index: int) -> WorldView {
        WorldView {
            chunks: self.chunks.update(index, ChunkView { modified: false, ..self.chunks[index] }),
            ..self
        }
    }

    /// Grid coordinate of the chunk that lies at place `k` (in `0..27`) of
    /// the 3x3x3 neighbourhood of chunk number `index`, the places counted in
    /// (y, z, x) row-major order.
    pub open spec fn hood_coord(self, index: int, k: int) -> (int, int, int) {
        let c = self.chunks[index];
        (c.x + k % 3 - 1, c.y + k / 9 - 1, c.z + (k / 3) % 3 - 1)
    }

    /// The 3x3x3 neighbourhood of chunk number `index`: the chunk itself in
    /// the middle, its neighbours around it, and nothing where the grid
    /// ends.
    pub open spec fn hood(self, index: int) -> Seq<Option<ChunkView>> {
        Seq::new(
            27,
            |k: int|
                {
                    let (x, y, z) = self.hood_coord(index, k);
                    if self.has_chunk(x, y, z) {
                        Some(self.chunks[self.chunk_index(x, y, z)])
                    } else {
                        None
                    }
                },
        )
    }

    /// Whether two worlds have the same grid extent.
    pub open spec fn same_extent(self, other: WorldView) -> bool {
        self.w == other.w && self.h == other.h && self.d == other.d
    }

    /// Whether two worlds hold the same block ids.
    pub open spec fn same_blocks(self, other: WorldView) -> bool {
        &&& self.same_extent(other)
        &&& forall|x: int, y: int, z: int| #[trigger]
            self.block_at(x, y, z) == other.block_at(x, y, z)
    }

    /// Inside a well-formed world, the chunk and voxel slots of a position
    /// are valid indices, and the chunk found there has the position's chunk
    /// coordinate.
    pub proof fn lemma_slot(self, x: int, y: int, z: int)
        requires
            self.wf(),
            self.in_world(x, y, z),
        ensures
            0 <= self.chunk_slot(x, y, z) < self.chunks.len(),
            0 <= voxel_slot(x, y, z) < 4096,
            self.chunks[self.chunk_slot(x, y, z)].x == chunk_of(x),
            self.chunks[self.chunk_slot(x, y, z)].y == chunk_of(y),
            self.chunks[self.chunk_slot(x, y, z)].z == chunk_of(z),
            self.chunks[self.chunk_slot(x, y, z)].wf(),
            0 <= x < self.w * 16,
            0 <= y < self.h * 16,
            0 <= z < self.d * 16,
    {
        self.lemma_chunk(chunk_of(x), chunk_of(y), chunk_of(z));
        lemma_local_index(local_of(x), local_of(y), local_of(z));
    }

    /// Inside a well-formed world, the index of a chunk coordinate is valid
    /// and the chunk found there has that coordinate.
    pub proof fn lemma_chunk(self, cx: int, cy: int, cz: int)
        requires
            self.wf(),
            self.has_chunk(cx, cy, cz),
        ensures
            0 <= self.chunk_index(cx, cy, cz) < self.chunks.len(),
            self.chunks[self.chunk_index(cx, cy, cz)].x == cx,
            self.chunks[self.chunk_index(cx, cy, cz)].y == cy,
            self.chunks[self.chunk_index(cx, cy, cz)].z == cz,
            self.chunks[self.chunk_index(cx, cy, cz)].wf(),
    {
        lemma_grid_index_bounds(self.w, self.h, self.d, cx, cy, cz);
        let i = self.chunk_index(cx, cy, cz);
        let c = self.chunks[i];
        lemma_grid_index_injective(self.w, self.d, c.x, c.y, c.z, cx, cy, cz);
    }

    /// Two positions inside the world that share chunk slot and voxel slot
    /// are the same position.
    pub proof fn lemma_slot_injective(self, ax: int, ay: int, az: int, bx: int, by: int, bz: int)
        requires
            self.wf(),
            self.in_world(ax, ay, az),
            self.in_world(bx, by, bz),
            self.chunk_slot(ax, ay, az) == self.chunk_slot(bx, by, bz),
            voxel_slot(ax, ay, az) == voxel_slot(bx, by, bz),
        ensures
            ax == bx,
            ay == by,
            az == bz,
    {
        lemma_grid_index_injective(
            self.w,
            self.d,
            chunk_of(ax),
            chunk_of(ay),
            chunk_of(az),
            chunk_of(bx),
            chunk_of(by),
            chunk_of(bz),
        );
        lemma_local_index(local_of(ax), local_of(ay), local_of(az));
        lemma_local_index(local_of(bx), local_of(by), local_of(bz));
        lemma_split_injective(ax, bx);
        lemma_split_injective(ay, by);
        lemma_split_injective(az, bz);
    }

    /// Storing a level changes that channel of that voxel and nothing else
    /// that can be read through positions: every other level and every block
    /// id stay as they were.
    pub proof fn lemma_with_level(self, x: int, y: int, z: int, channel: int, level: int)
        requires
            self.wf(),
            is_channel(channel),
            is_level(level),
        ensures
            self.with_level(x, y, z, channel, level).wf(),
            self.with_level(x, y, z, channel, level).same_blocks(self),
            forall|qx: int, qy: int, qz: int, c: int|
                is_channel(c) ==> #[trigger] self.with_level(x, y, z, channel, level).level_at(
                    qx,
                    qy,
                    qz,
                    c,
                ) == if qx == x && qy == y && qz == z && c == channel && self.in_world(x, y, z) {
                    level
                } else {
                    self.level_at(qx, qy, qz, c)
                },
    {
        let after = self.with_level(x, y, z, channel, level);
        if self.in_world(x, y, z) {
            self.lemma_slot(x, y, z);
            let i = self.chunk_slot(x, y, z);
            let j = voxel_slot(x, y, z);
            assert forall|k: int| 0 <= k < after.chunks.len() implies {
                let c = #[trigger] after.chunks[k];
                &&& c.wf()
                &&& after.has_chunk(c.x, c.y, c.z)
                &&& after.chunk_index(c.x, c.y, c.z) == k
            } by {
                let c = self.chunks[k];
                assert(c.wf());
            }
            assert forall|qx: int, qy: int, qz: int| #[trigger]
                after.block_at(qx, qy, qz) == self.block_at(qx, qy, qz) by {
                if self.in_world(qx, qy, qz) {
                    self.lemma_slot(qx, qy, qz);
                }
            }
            assert forall|qx: int, qy: int, qz: int, c: int| is_channel(c) implies #[trigger]
                after.level_at(qx, qy, qz, c) == if qx == x && qy == y && qz == z && c
                == channel {
                level
            } else {
                self.level_at(qx, qy, qz, c)
            } by {
                if self.in_world(qx, qy, qz) {
                    self.lemma_slot(qx, qy, qz);
                    if self.chunk_slot(qx, qy, qz) == i && voxel_slot(qx, qy, qz) == j {
                        self.lemma_slot_injective(qx, qy, qz, x, y, z);
                        lemma_with_channel(self.chunks[i].lights[j], channel, level, c);
                    }
                }
            }
        }
    }
}

} // verus!

verus! {

/// Sum of the levels of `channel` over the first `n` words of `lights`.
pub open spec fn word_sum(lights: Seq<u16>, channel: int, n: int) -> int
    decreases n,
{
    if n <= 0 {
        0
    } else {
        word_sum(lights, channel, n - 1) + channel_level(lights[n - 1], channel)
    }
}

/// Sum of the levels of `channel` over all voxels of the first `n` chunks.
pub open spec fn chunk_sum(chunks: Seq<ChunkView>, channel: int, n: int) -> int
    decreases n,
{
    if n <= 0 {
        0
    } else {
        chunk_sum(chunks, channel, n - 1) + word_sum(chunks[n - 1].lights, channel, 4096)
    }
}

/// A sum of levels lies between zero and fifteen per word.
pub proof fn lemma_word_sum_bounds(lights: Seq<u16>, channel: int, n: int)
    requires
        is_channel(channel),
        0 <= n,
    ensures
        0 <= word_sum(lights, channel, n) <= 15 * n,
    decreases n,
{
    if n > 0 {
        lemma_word_sum_bounds(lights, channel, n - 1);
        lemma_with_channel(lights[n - 1], channel, 0, channel);
    }
}

/// Replacing one word changes the sum by the difference of the two levels.
pub proof fn lemma_word_sum_update(lights: Seq<u16>, channel: int, n: int, j: int, word: u16)
    requires
        0 <= j < lights.len(),
        0 <= n <= lights.len(),
    ensures
        word_sum(lights.update(j, word), channel, n) == word_sum(lights, channel, n) + if j < n {
            channel_level(word, channel) - channel_level(lights[j], channel)
        } else {
            0
        },
    decreases n,
{
    if n > 0 {
        lemma_word_sum_update(lights, channel, n - 1, j, word);
    }
}

/// A sum over chunks lies between zero and fifteen per voxel.
pub proof fn lemma_chunk_sum_bounds(chunks: Seq<ChunkView>, channel: int, n: int)
    requires
        is_channel(channel),
        0 <= n,
    ensures
        0 <= chunk_sum(chunks, channel, n) <= 61440 * n,
    decreases n,
{
    if n > 0 {
        lemma_chunk_sum_bounds(chunks, channel, n - 1);
        lemma_word_sum_bounds(chunks[n - 1].lights, channel, 4096);
    }
}

/// Replacing one chunk changes the sum by the difference of the two chunks'
/// sums.
pub proof fn lemma_chunk_sum_update(
    chunks: Seq<ChunkView>,
    channel: int,
    n: int,
    i: int,
    chunk: ChunkView,
)
    requires
        0 <= i < chunks.len(),
        0 <= n <= chunks.len(),
    ensures
        chunk_sum(chunks.update(i, chunk), channel, n) == chunk_sum(chunks, channel, n) + if i
            < n {
            word_sum(chunk.lights, channel, 4096) - word_sum(chunks[i].lights, channel, 4096)
        } else {
            0
        },
    decreases n,
{
    if n > 0 {
        lemma_chunk_sum_update(chunks, channel, n - 1, i, chunk);
    }
}

impl WorldView {
    /// Sum of the levels of `channel` over every voxel of the world.
    pub open spec fn total_level(self, channel: int) -> int {
        chunk_sum(self.chunks, channel, self.chunks.len() as int)
    }

    /// Largest value that `total_level` can take in this world.
    pub open spec fn level_capacity(self) -> int {
        61440 * (self.chunks.len() as int)
    }

    /// The total level lies between zero and the capacity of the world.
    pub proof fn lemma_total_bounds(self, channel: int)
        requires
            is_channel(channel),
        ensures
            0 <= self.total_level(channel) <= self.level_capacity(),
    {
        lemma_chunk_sum_bounds(self.chunks, channel, self.chunks.len() as int);
    }

    /// Storing a level changes the total of that channel by the difference
    /// between the new and the old level, and leaves the capacity alone.
    pub proof fn lemma_total_with_level(self, x: int, y: int, z: int, channel: int, level: int)
        requires
            self.wf(),
            is_channel(channel),
            is_level(level),
        ensures
            self.with_level(x, y, z, channel, level).total_level(channel) == self.total_level(
                channel,
            ) + if self.in_world(x, y, z) {
                level - self.level_at(x, y, z, channel)
            } else {
                0
            },
            self.with_level(x, y, z, channel, level).level_capacity() == self.level_capacity(),
    {
        if self.in_world(x, y, z) {
            self.lemma_slot(x, y, z);
            let i = self.chunk_slot(x, y, z);
            let j = voxel_slot(x, y, z);
            let c = self.chunks[i];
            let word = with_channel(c.lights[j], channel, level);
            let lights = c.lights.update(j, word);
            let chunk = ChunkView { modified: true, lights, ..c };
            lemma_with_channel(c.lights[j], channel, level, channel);
            lemma_word_sum_update(c.lights, channel, 4096, j, word);
            lemma_chunk_sum_update(self.chunks, channel, self.chunks.len() as int, i, chunk);
        }
    }
}

} // verus!

verus! {

/// Saving a world and loading the bytes into any world of the same extent
/// reproduces every block id: the loaded world holds the saved blocks at
/// every position, and saving it again gives the same bytes.
pub proof fn lemma_load_roundtrip(saved: WorldView, fresh: WorldView)
    requires
        saved.wf(),
        fresh.wf(),
        saved.same_extent(fresh),
    ensures
        saved.bytes().len() == fresh.chunks.len() * 4096,
        fresh.loaded(saved.bytes()).bytes() == saved.bytes(),
        fresh.loaded(saved.bytes()).same_blocks(saved),
{
    let bytes = saved.bytes();
    let after = fresh.loaded(bytes);
    assert(after.bytes() =~= bytes) by {
        assert forall|j: int| 0 <= j < bytes.len() implies after.bytes()[j] == bytes[j] by {
            assert(after.chunks[j / 4096].ids[j % 4096] == bytes[4096 * (j / 4096) + j % 4096]);
        }
    }
    assert forall|x: int, y: int, z: int| #[trigger]
        after.block_at(x, y, z) == saved.block_at(x, y, z) by {
        if saved.in_world(x, y, z) {
            saved.lemma_slot(x, y, z);
            let i = saved.chunk_slot(x, y, z);
            let j = voxel_slot(x, y, z);
            assert(after.chunks[i].ids[j] == bytes[4096 * i + j]);
            assert((4096 * i + j) / 4096 == i && (4096 * i + j) % 4096 == j);
        }
    }
}

} // verus!
