//! Voxels, chunks and block definitions.

use vstd::prelude::*;
use crate::lighting::lightmap::Lightmap;

pub mod coords;
pub mod world;
pub mod chunks;
pub mod raycast;
pub mod raycast_laws;

verus! {

/// Chunk extent along x, in voxels.
pub const CHUNK_W: i32 = 16;

/// Chunk extent along y, in voxels.
pub const CHUNK_H: i32 = 16;

/// Chunk extent along z, in voxels.
pub const CHUNK_D: i32 = 16;

/// Number of voxels in a chunk.
pub const CHUNK_VOL: usize = 4096;

/// Number of slots in a block registry.
pub const BLOCK_COUNT: usize = 256;

/// Largest chunk coordinate whose voxels still have 32-bit world coordinates.
pub const MAX_CHUNK_COORD: i32 = 134217727;

/// One cell of the world; block id 0 is air.
#[derive(Clone, Copy, Debug)]
pub struct Voxel {
    pub id: u8,
}

/// Mathematical content of a chunk: its place in the chunk grid, the flag
/// that asks for a mesh rebuild, and one block id and one packed light word
/// per voxel in (y, z, x) row-major order.
#[verifier::ext_equal]
pub struct ChunkView {
    pub x: int,
    pub y: int,
    pub z: int,
    pub modified: bool,
    pub ids: Seq<u8>,
    pub lights: Seq<u16>,
}

impl ChunkView {
    /// A chunk holds 4096 voxels and as many light words.
    pub open spec fn wf(self) -> bool {
        self.ids.len() == 4096 && self.lights.len() == 4096
    }
}

/// A 16x16x16 cube of voxels with its light levels.
#[derive(Clone)]
pub struct Chunk {
    pub x: i32,
    pub y: i32,
    pub z: i32,
    pub modified: bool,
    pub voxels: [Voxel; CHUNK_VOL],
    pub lightmap: Lightmap,
}

impl View for Chunk {
    type V = ChunkView;

    open spec fn view(&self) -> ChunkView {
        ChunkView {
            x: self.x as int,
            y: self.y as int,
            z: self.z as int,
            modified: self.modified,
            ids: Seq::new(4096, |i: int| self.voxels[i].id),
            lights: self.lightmap@,
        }
    }
}

/// The chunk contents that a sequence of optional chunks stands for.
pub open spec fn views(chunks: Seq<Option<Chunk>>) -> Seq<Option<ChunkView>> {
    Seq::new(
        chunks.len(),
        |i: int|
            match chunks[i] {
                Some(c) => Some(c@),
                None => None,
            },
    )
}

/// Block id that terrain generation puts at height `real_y`, given whether
/// the density source reports the voxel as solid: grass up to height 2,
/// stone where solid, air elsewhere.
pub open spec fn terrain_id(real_y: int, solid: bool) -> u8 {
    if real_y <= 2 {
        2
    } else if solid {
        1
    } else {
        0
    }
}

impl Chunk {
    /// The chunk's lightmap has one word per voxel.
    pub open spec fn wf(&self) -> bool {
        self.lightmap.wf()
    }

    /// Generates the chunk at chunk coordinate (x_pos, y_pos, z_pos).
    /// `solid` holds the verdict of the density source for each voxel of the
    /// chunk, in (y, z, x) row-major order. The new chunk is dark and marked
    /// as modified.
    pub fn new(x_pos: i32, y_pos: i32, z_pos: i32, solid: &[bool]) -> (r: Self)
        requires
            solid@.len() == 4096,
            -MAX_CHUNK_COORD <= y_pos <= MAX_CHUNK_COORD,
        ensures
            r.wf(),
            r.x == x_pos,
            r.y == y_pos,
            r.z == z_pos,
            r.modified,
            r@.ids == Seq::new(
                4096,
                |i: int| terrain_id(y_pos * 16 + i / 256, solid@[i]),
            ),
            r@.lights == Seq::new(4096, |i: int| 0u16),
    {
        let mut voxels = [Voxel { id: 0 };CHUNK_VOL];
        let mut i: usize = 0;
        while i < 4096
            invariant
                i <= 4096,
                solid@.len() == 4096,
                -MAX_CHUNK_COORD <= y_pos <= MAX_CHUNK_COORD,
                forall|k: int|
                    0 <= k < i ==> voxels[k].id == terrain_id(y_pos * 16 + k / 256, solid@[k]),
            decreases 4096 - i,
        {
            let y: i32 = (i / 256) as i32;
            let real_y: i32 = y + y_pos * CHUNK_H;
            let id: u8 = if real_y <= 2 {
                2
            } else if solid[i] {
                1
            } else {
                0
            };
            voxels[i] = Voxel { id };
            i = i + 1;
        }
        let lightmap = Lightmap::new();
        let r = Chunk { x: x_pos, y: y_pos, z: z_pos, modified: true, voxels, lightmap };
        proof {
            assert(r@.ids =~= Seq::new(
                4096,
                |i: int| terrain_id(y_pos * 16 + i / 256, solid@[i]),
            ));
            assert(r@.lights =~= Seq::new(4096, |i: int| 0u16));
        }
        r
    }

    /// Replaces the block ids of the chunk by the 4096 bytes of `source`
    /// that start at `offset` and marks the chunk as modified.
    pub fn load(&mut self, source: &[u8], offset: usize)
        requires
            offset + 4096 <= source@.len(),
        ensures
            final(self)@ == (ChunkView {
                modified: true,
                ids: source@.subrange(offset as int, offset + 4096),
                ..old(self)@
            }),
            final(self).lightmap == old(self).lightmap,
    {
        let len = source.len();
        let mut i: usize = 0;
        while i < 4096
            invariant
                i <= 4096,
                len == source@.len(),
                offset + 4096 <= len,
                self.x == old(self).x,
                self.y == old(self).y,
                self.z == old(self).z,
                self.lightmap == old(self).lightmap,
                forall|k: int| 0 <= k < i ==> self.voxels[k].id == source@[offset + k],
            decreases 4096 - i,
        {
            self.voxels[i].id = source[offset + i];
            i = i + 1;
        }
        self.modified = true;
        assert(self@.ids =~= source@.subrange(offset as int, offset + 4096));
    }

    /// A copy of the chunk.
    pub fn duplicate(&self) -> (r: Self)
        requires
            self.wf(),
        ensures
            r@ == self@,
            r.wf(),
    {
        let mut map: Vec<u16> = Vec::with_capacity(CHUNK_VOL);
        let mut i: usize = 0;
        while i < CHUNK_VOL
            invariant
                i <= 4096,
                self.lightmap.map@.len() == 4096,
                map@.len() == i,
                forall|k: int| 0 <= k < i ==> map@[k] == self.lightmap.map@[k],
            decreases 4096 - i,
        {
            map.push(self.lightmap.map[i]);
            i = i + 1;
        }
        let r = Chunk {
            x: self.x,
            y: self.y,
            z: self.z,
            modified: self.modified,
            voxels: self.voxels,
            lightmap: Lightmap { map },
        };
        assert(r@.lights =~= self@.lights);
        assert(r@.ids =~= self@.ids);
        r
    }

    /// Sets every channel of every voxel to zero and marks the chunk as
    /// modified.
    pub fn darken(&mut self)
        requires
            old(self).wf(),
        ensures
            final(self).wf(),
            final(self)@ == (ChunkView {
                modified: true,
                lights: Seq::new(4096, |k: int| 0u16),
                ..old(self)@
            }),
    {
        let mut i: usize = 0;
        while i < CHUNK_VOL
            invariant
                i <= 4096,
                self.lightmap.map@.len() == 4096,
                self.x == old(self).x,
                self.y == old(self).y,
                self.z == old(self).z,
                self.voxels == old(self).voxels,
                forall|k: int| 0 <= k < i ==> self.lightmap.map@[k] == 0,
            decreases 4096 - i,
        {
            self.lightmap.map[i] = 0;
            i = i + 1;
        }
        self.modified = true;
        assert(self@.lights =~= Seq::new(4096, |k: int| 0u16));
    }

    /// Writes the block ids of the chunk to the 4096 bytes of `dest` that
    /// start at `offset`; the other bytes of `dest` keep their values.
    pub fn store(&self, dest: &mut [u8], offset: usize)
        requires
            offset + 4096 <= old(dest)@.len(),
        ensures
            final(dest)@.len() == old(dest)@.len(),
            forall|k: int|
                0 <= k < final(dest)@.len() ==> final(dest)@[k] == if offset <= k < offset + 4096 {
                    self@.ids[k - offset]
                } else {
                    old(dest)@[k]
                },
    {
        let len = dest.len();
        let mut i: usize = 0;
        while i < 4096
            invariant
                i <= 4096,
                dest@.len() == old(dest)@.len(),
                len == dest@.len(),
                offset + 4096 <= len,
                forall|k: int|
                    0 <= k < dest@.len() ==> dest@[k] == if offset <= k < offset + i {
                        self@.ids[k - offset]
                    } else {
                        old(dest)@[k]
                    },
            decreases 4096 - i,
        {
            dest[offset + i] = self.voxels[i].id;
            i = i + 1;
        }
    }
}

/// Definition of one kind of block.
#[derive(Clone)]
pub struct Block {
    pub id: u32,
    pub texture_faces: [i32; 6],
    pub emission: [u8; 3],
    pub draw_group: u8,
    pub light_passing: bool,
}

impl Block {
    /// Emission stays within the light range and every face names a cell of
    /// the 16x16 texture atlas.
    pub open spec fn wf(&self) -> bool {
        &&& forall|i: int| 0 <= i < 3 ==> self.emission[i] <= 15
        &&& forall|i: int| 0 <= i < 6 ==> 0 <= #[trigger] self.texture_faces[i] < 256
    }

    /// An opaque, dark block of draw group 0 that shows `texture` on all six
    /// faces.
    pub fn new(id: u32, texture: i32) -> (r: Self)
        ensures
            r.id == id,
            forall|i: int| 0 <= i < 6 ==> r.texture_faces[i] == texture,
            forall|i: int| 0 <= i < 3 ==> r.emission[i] == 0,
            r.draw_group == 0,
            !r.light_passing,
    {
        Self {
            id,
            texture_faces: [texture;6],
            emission: [0;3],
            draw_group: 0,
            light_passing: false,
        }
    }
}

/// Table of block definitions, indexed by block id.
pub struct BlockRegistry {
    pub blocks: Vec<Option<Block>>,
}

impl BlockRegistry {
    /// The table has one slot per block id and every definition in it is
    /// well formed.
    pub open spec fn wf(&self) -> bool {
        &&& self.blocks@.len() == 256
        &&& forall|i: int|
            0 <= i < 256 && self.blocks@[i] is Some ==> (#[trigger] self.blocks@[i])->0.wf()
    }

    /// Definition registered under `id`, if any.
    pub open spec fn lookup(&self, id: u8) -> Option<Block> {
        if (id as int) < self.blocks@.len() {
            self.blocks@[id as int]
        } else {
            None
        }
    }

    /// Whether light may enter voxels of block `id`. Air always lets light
    /// in; any other block does so when its definition says so.
    pub open spec fn passes_light(&self, id: u8) -> bool {
        id == 0 || (self.lookup(id) is Some && self.lookup(id)->0.light_passing)
    }

    /// A table with no definitions.
    pub fn new() -> (r: Self)
        ensures
            r.wf(),
            forall|i: int| 0 <= i < 256 ==> r.blocks@[i] is None,
    {
        let mut blocks: Vec<Option<Block>> = Vec::with_capacity(BLOCK_COUNT);
        let mut i: usize = 0;
        while i < BLOCK_COUNT
            invariant
                i <= 256,
                blocks@.len() == i,
                forall|k: int| 0 <= k < i ==> blocks@[k] is None,
            decreases 256 - i,
        {
            blocks.push(None);
            i = i + 1;
        }
        Self { blocks }
    }

    /// The definition registered under `id`.
    pub fn get(&self, id: u8) -> (r: Option<&Block>)
        requires
            self.blocks@.len() == 256,
        ensures
            match r {
                Some(b) => self.lookup(id) == Some(*b),
                None => self.lookup(id) is None,
            },
    {
        self.blocks[id as usize].as_ref()
    }
}

} // verus!
