//! The chunk store: voxel and light access by world coordinate, edits, and
//! conversion to and from a flat byte buffer.

use vstd::prelude::*;
use vstd::slice::slice_subrange;
use crate::lighting::lightmap::is_channel;
use crate::voxels::{CHUNK_D, CHUNK_H, CHUNK_W, Chunk, ChunkView, MAX_CHUNK_COORD, Voxel, terrain_id,
    views};
use crate::voxels::coords::{chunk_coord, chunk_of, local_coord, local_of, lemma_local_index,
    lemma_split_join};
use crate::voxels::world::{WorldView, grid_index, lemma_grid_index_bounds, voxel_slot};

verus! {

/// Why a byte buffer could not be loaded into a world.
#[derive(Clone, Copy, Debug, PartialEq, Eq, Structural)]
pub enum LoadError {
    /// The buffer does not hold exactly one byte per voxel of the world.
    WrongLength,
}

/// Place of a voxel in the chunk store: index of its chunk, index inside the
/// chunk, chunk coordinate and local coordinate.
pub type Indices = (usize, usize, i32, i32, i32, i32, i32, i32);

/// A fixed grid of chunks.
#[derive(Clone)]
pub struct Chunks {
    pub chunks: Vec<Chunk>,
    pub volume: usize,
    pub w: u32,
    pub h: u32,
    pub d: u32,
}

impl View for Chunks {
    type V = WorldView;

    open spec fn view(&self) -> WorldView {
        WorldView {
            w: self.w as int,
            h: self.h as int,
            d: self.d as int,
            chunks: Seq::new(self.chunks@.len(), |i: int| self.chunks@[i]@),
        }
    }
}

/// The world that generation produces for a `w` x `h` x `d` grid from the
/// verdicts `solid` of the density source, one per voxel in storage order.
pub open spec fn generated(w: int, h: int, d: int, solid: Seq<bool>) -> WorldView {
    WorldView {
        w,
        h,
        d,
        chunks: Seq::new(
            (w * h * d) as nat,
            |i: int|
                ChunkView {
                    x: i % w,
                    y: i / (w * d),
                    z: (i / w) % d,
                    modified: true,
                    ids: Seq::new(
                        4096,
                        |k: int| terrain_id((i / (w * d)) * 16 + k / 256, solid[4096 * i + k]),
                    ),
                    lights: Seq::new(4096, |k: int| 0u16),
                },
        ),
    }
}

impl Chunks {
    /// The store models a well-formed world and `volume` counts its chunks.
    pub open spec fn wf(&self) -> bool {
        self@.wf() && self.volume == self.chunks@.len()
    }

    /// Index of the chunk at chunk coordinate (x, y, z), if the grid has one.
    pub fn get_chunk_index(&self, x: i32, y: i32, z: i32) -> (r: Option<i32>)
        requires
            self.wf(),
        ensures
            self@.has_chunk(x as int, y as int, z as int) ==> r == Some(
                self@.chunk_index(x as int, y as int, z as int) as i32,
            ) && 0 <= self@.chunk_index(x as int, y as int, z as int) < self.chunks@.len(),
            !self@.has_chunk(x as int, y as int, z as int) ==> r is None,
    {
        if x < 0 || y < 0 || z < 0 || x >= (self.w as i32) || y >= (self.h as i32) || z >= (
        self.d as i32) {
            return None;
        }
        proof {
            lemma_grid_index_bounds(
                self.w as int,
                self.h as int,
                self.d as int,
                x as int,
                y as int,
                z as int,
            );
        }
        Some((y * (self.d as i32) + z) * (self.w as i32) + x)
    }

    /// Place of the voxel at world coordinate (x, y, z), if it lies inside
    /// the grid.
    pub fn calculate_indices(&self, x: i32, y: i32, z: i32) -> (r: Option<Indices>)
        requires
            self.wf(),
        ensures
            r is Some <==> self@.in_world(x as int, y as int, z as int),
            r is Some ==> {
                let (chunk_index, voxel_index, cx, cy, cz, lx, ly, lz) = r->0;
                &&& chunk_index == self@.chunk_slot(x as int, y as int, z as int)
                &&& chunk_index < self.chunks@.len()
                &&& voxel_index == voxel_slot(x as int, y as int, z as int)
                &&& voxel_index < 4096
                &&& cx == chunk_of(x as int)
                &&& cy == chunk_of(y as int)
                &&& cz == chunk_of(z as int)
                &&& lx == local_of(x as int)
                &&& ly == local_of(y as int)
                &&& lz == local_of(z as int)
                &&& cx * 16 + lx == x
                &&& cy * 16 + ly == y
                &&& cz * 16 + lz == z
            },
    {
        let cx = chunk_coord(x);
        let cy = chunk_coord(y);
        let cz = chunk_coord(z);
        match self.get_chunk_index(cx, cy, cz) {
            Some(chunk_index) => {
                let lx = local_coord(x);
                let ly = local_coord(y);
                let lz = local_coord(z);
                proof {
                    lemma_local_index(lx as int, ly as int, lz as int);
                }
                let voxel_index = ((ly * 16 + lz) * 16 + lx) as usize;
                Some((chunk_index as usize, voxel_index, cx, cy, cz, lx, ly, lz))
            },
            None => None,
        }
    }

    /// The voxel at world coordinate (x, y, z); absent outside the grid.
    pub fn get_voxel(&self, x: i32, y: i32, z: i32) -> (r: Option<&Voxel>)
        requires
            self.wf(),
        ensures
            match r {
                Some(v) => self@.block_at(x as int, y as int, z as int) == Some(v.id),
                None => self@.block_at(x as int, y as int, z as int) is None,
            },
    {
        match self.calculate_indices(x, y, z) {
            Some((chunk_index, voxel_index, _, _, _, _, _, _)) => {
                Some(&self.chunks[chunk_index].voxels[voxel_index])
            },
            None => None,
        }
    }

    /// Exclusive access to the voxel at world coordinate (x, y, z); absent
    /// outside the grid. Whatever id the caller leaves in the voxel is the id
    /// the world holds there afterwards; no flag changes.
    pub fn _get_mut_voxel(&mut self, x: i32, y: i32, z: i32) -> (r: Option<&mut Voxel>)
        requires
            old(self).wf(),
        ensures
            match r {
                Some(v) => {
                    &&& old(self)@.block_at(x as int, y as int, z as int) == Some(v.id)
                    &&& final(self)@ =~~= old(self)@.with_id(
                        x as int,
                        y as int,
                        z as int,
                        final(v).id,
                    )
                    &&& final(self).wf()
                },
                None => {
                    &&& old(self)@.block_at(x as int, y as int, z as int) is None
                    &&& *final(self) == *old(self)
                },
            },
    {
        match self.calculate_indices(x, y, z) {
            Some((chunk_index, voxel_index, _, _, _, _, _, _)) => {
                proof {
                    assert forall|id: u8|
                        (#[trigger] self@.with_id(x as int, y as int, z as int, id)).wf() by {
                        lemma_with_id_wf(self@, x as int, y as int, z as int, id);
                    }
                    self@.lemma_slot(x as int, y as int, z as int);
                }
                let r = &mut self.chunks[chunk_index].voxels[voxel_index];
                Some(r)
            },
            None => None,
        }
    }

    /// Light level of `channel` at world coordinate (x, y, z); zero outside
    /// the grid.
    pub fn get_light(&self, x: i32, y: i32, z: i32, channel: i32) -> (r: u8)
        requires
            self.wf(),
            is_channel(channel as int),
        ensures
            r == self@.level_at(x as int, y as int, z as int, channel as int),
            r <= 15,
    {
        match self.calculate_indices(x, y, z) {
            Some((chunk_index, _, _, _, _, lx, ly, lz)) => {
                proof {
                    self@.lemma_slot(x as int, y as int, z as int);
                }
                let chunk = &self.chunks[chunk_index];
                chunk.lightmap.get(lx, ly, lz, channel)
            },
            None => 0,
        }
    }

    /// The chunk that holds world coordinate (x, y, z); absent outside the
    /// grid.
    pub fn _get_chunk_by_voxel(&self, x: i32, y: i32, z: i32) -> (r: Option<&Chunk>)
        requires
            self.wf(),
        ensures
            match r {
                Some(c) => self@.in_world(x as int, y as int, z as int) && *c
                    == self.chunks@[self@.chunk_slot(x as int, y as int, z as int)],
                None => !self@.in_world(x as int, y as int, z as int),
            },
    {
        match self.calculate_indices(x, y, z) {
            Some((chunk_index, _, _, _, _, _, _, _)) => Some(&self.chunks[chunk_index]),
            None => None,
        }
    }

    /// Exclusive access to the chunk that holds world coordinate (x, y, z);
    /// absent outside the grid. The store afterwards holds whatever the
    /// caller leaves in the chunk, in the same place, and is otherwise
    /// unchanged.
    pub fn get_mut_chunk_by_voxel(&mut self, x: i32, y: i32, z: i32) -> (r: Option<&mut Chunk>)
        requires
            old(self).wf(),
        ensures
            match r {
                Some(c) => {
                    let i = old(self)@.chunk_slot(x as int, y as int, z as int);
                    &&& old(self)@.in_world(x as int, y as int, z as int)
                    &&& *c == old(self).chunks@[i]
                    &&& final(self).chunks@ == old(self).chunks@.update(i, *final(c))
                    &&& final(self).volume == old(self).volume
                    &&& final(self).w == old(self).w
                    &&& final(self).h == old(self).h
                    &&& final(self).d == old(self).d
                },
                None => {
                    &&& !old(self)@.in_world(x as int, y as int, z as int)
                    &&& *final(self) == *old(self)
                },
            },
    {
        match self.calculate_indices(x, y, z) {
            Some((chunk_index, _, _, _, _, _, _, _)) => Some(&mut self.chunks[chunk_index]),
            None => None,
        }
    }

    /// The chunk at chunk coordinate (x, y, z); absent outside the grid.
    pub fn _get_chunk(&self, x: i32, y: i32, z: i32) -> (r: Option<&Chunk>)
        requires
            self.wf(),
        ensures
            match r {
                Some(c) => self@.has_chunk(x as int, y as int, z as int) && *c
                    == self.chunks@[self@.chunk_index(x as int, y as int, z as int)],
                None => !self@.has_chunk(x as int, y as int, z as int),
            },
    {
        match self.get_chunk_index(x, y, z) {
            Some(chunk_index) => Some(&self.chunks[chunk_index as usize]),
            None => None,
        }
    }

    /// Exclusive access to the chunk at chunk coordinate (x, y, z); absent
    /// outside the grid. The store afterwards holds whatever the caller
    /// leaves in the chunk, in the same place, and is otherwise unchanged.
    pub fn get_mut_chunk(&mut self, x: i32, y: i32, z: i32) -> (r: Option<&mut Chunk>)
        requires
            old(self).wf(),
        ensures
            match r {
                Some(c) => {
                    let i = old(self)@.chunk_index(x as int, y as int, z as int);
                    &&& old(self)@.has_chunk(x as int, y as int, z as int)
                    &&& *c == old(self).chunks@[i]
                    &&& final(self).chunks@ == old(self).chunks@.update(i, *final(c))
                    &&& final(self).volume == old(self).volume
                    &&& final(self).w == old(self).w
                    &&& final(self).h == old(self).h
                    &&& final(self).d == old(self).d
                },
                None => {
                    &&& !old(self)@.has_chunk(x as int, y as int, z as int)
                    &&& *final(self) == *old(self)
                },
            },
    {
        match self.get_chunk_index(x, y, z) {
            Some(chunk_index) => Some(&mut self.chunks[chunk_index as usize]),
            None => None,
        }
    }

    /// Marks the chunk at chunk coordinate (cx, cy, cz) as modified, if the
    /// grid has one.
    pub fn mark_modified(&mut self, cx: i32, cy: i32, cz: i32)
        requires
            old(self).wf(),
        ensures
            final(self)@ == old(self)@.with_modified(cx as int, cy as int, cz as int),
            final(self).wf(),
    {
        proof {
            lemma_with_modified_wf(self@, cx as int, cy as int, cz as int);
            if self@.has_chunk(cx as int, cy as int, cz as int) {
                self@.lemma_chunk(cx as int, cy as int, cz as int);
            }
        }
        if let Some(chunk) = self.get_mut_chunk(cx, cy, cz) {
            chunk.modified = true;
        }
        assert(self@ =~~= old(self)@.with_modified(cx as int, cy as int, cz as int));
    }

    /// Stores `level` in `channel` at world coordinate (x, y, z) and marks
    /// the voxel's chunk as modified; does nothing outside the grid.
    pub fn put_light(&mut self, x: i32, y: i32, z: i32, channel: i32, level: u8)
        requires
            old(self).wf(),
            is_channel(channel as int),
            level <= 15,
        ensures
            final(self)@ == old(self)@.with_level(
                x as int,
                y as int,
                z as int,
                channel as int,
                level as int,
            ),
            final(self).wf(),
    {
        proof {
            self@.lemma_with_level(x as int, y as int, z as int, channel as int, level as int);
            if self@.in_world(x as int, y as int, z as int) {
                self@.lemma_slot(x as int, y as int, z as int);
                lemma_split_join(x as int);
                lemma_split_join(y as int);
                lemma_split_join(z as int);
            }
        }
        if let Some(chunk) = self.get_mut_chunk_by_voxel(x, y, z) {
            chunk.modified = true;
            chunk.lightmap.set(
                x - chunk.x * 16,
                y - chunk.y * 16,
                z - chunk.z * 16,
                channel,
                level as i32,
            );
        }
        assert(self@ =~~= old(self)@.with_level(
            x as int,
            y as int,
            z as int,
            channel as int,
            level as int,
        ));
    }

    /// Copies of the chunks in the 3x3x3 neighbourhood of chunk number
    /// `index`, in (y, z, x) row-major order, with `None` where the grid
    /// ends.
    pub fn neighborhood(&self, index: usize) -> (r: Vec<Option<Chunk>>)
        requires
            self.wf(),
            index < self.chunks@.len(),
        ensures
            views(r@) == self@.hood(index as int),
            r@.len() == 27,
            forall|i: int| 0 <= i < 27 && r@[i] is Some ==> (#[trigger] r@[i])->0.wf(),
    {
        let (cx, cy, cz) = (self.chunks[index].x, self.chunks[index].y, self.chunks[index].z);
        assert(self@.chunks[index as int].wf() && self@.has_chunk(cx as int, cy as int, cz as int));
        let mut r: Vec<Option<Chunk>> = Vec::with_capacity(27);
        let mut k: usize = 0;
        while k < 27
            invariant
                k <= 27,
                self.wf(),
                index < self.chunks@.len(),
                cx == self.chunks@[index as int].x,
                cy == self.chunks@[index as int].y,
                cz == self.chunks@[index as int].z,
                0 <= cx <= MAX_CHUNK_COORD,
                0 <= cy <= MAX_CHUNK_COORD,
                0 <= cz <= MAX_CHUNK_COORD,
                r@.len() == k,
                forall|i: int| 0 <= i < k ==> views(r@)[i] == self@.hood(index as int)[i],
                forall|i: int| 0 <= i < k && r@[i] is Some ==> (#[trigger] r@[i])->0.wf(),
            decreases 27 - k,
        {
            let x = cx + (k % 3) as i32 - 1;
            let y = cy + (k / 9) as i32 - 1;
            let z = cz + ((k / 3) % 3) as i32 - 1;
            let ghost before = r@;
            let found = match self._get_chunk(x, y, z) {
                Some(chunk) => {
                    proof {
                        self@.lemma_chunk(x as int, y as int, z as int);
                    }
                    Some(chunk.duplicate())
                },
                None => None,
            };
            r.push(found);
            assert forall|i: int| 0 <= i < k + 1 implies views(r@)[i] == self@.hood(
                index as int,
            )[i] by {
                if i < k {
                    assert(views(before)[i] == self@.hood(index as int)[i]);
                    assert(r@[i] == before[i]);
                }
            }
            k = k + 1;
        }
        assert(views(r@) =~= self@.hood(index as int));
        r
    }

    /// Writes block `id`, reduced to a byte, at world coordinate (x, y, z).
    /// The voxel's chunk is marked as modified, and so is every neighbouring
    /// chunk that touches the voxel. Does nothing outside the grid.
    pub fn set(&mut self, x: i32, y: i32, z: i32, id: i32)
        requires
            old(self).wf(),
        ensures
            final(self)@ == old(self)@.with_block(x as int, y as int, z as int, byte_of(id as int)),
            final(self).wf(),
    {
        match self.calculate_indices(x, y, z) {
            Some((chunk_index, voxel_index, cx, cy, cz, lx, ly, lz)) => {
                let m: i32 = id % 256;
                let byte: u8 = if m < 0 {
                    (m + 256) as u8
                } else {
                    m as u8
                };
                proof {
                    self@.lemma_slot(x as int, y as int, z as int);
                    lemma_with_id_wf(self@, x as int, y as int, z as int, byte);
                    lemma_with_modified_wf(
                        self@.with_id(x as int, y as int, z as int, byte),
                        cx as int,
                        cy as int,
                        cz as int,
                    );
                }
                self.chunks[chunk_index].voxels[voxel_index].id = byte;
                self.chunks[chunk_index].modified = true;
                assert(self@ =~~= old(self)@.with_id(
                    x as int,
                    y as int,
                    z as int,
                    byte,
                ).with_modified(cx as int, cy as int, cz as int));
                if lx == 0 {
                    self.mark_modified(cx - 1, cy, cz);
                }
                if ly == 0 {
                    self.mark_modified(cx, cy - 1, cz);
                }
                if lz == 0 {
                    self.mark_modified(cx, cy, cz - 1);
                }
                if lx == CHUNK_W - 1 {
                    self.mark_modified(cx + 1, cy, cz);
                }
                if ly == CHUNK_H - 1 {
                    self.mark_modified(cx, cy + 1, cz);
                }
                if lz == CHUNK_D - 1 {
                    self.mark_modified(cx, cy, cz + 1);
                }
            },
            None => {},
        }
    }

    /// Writes the block id of every voxel to `dest`, chunk after chunk in
    /// storage order, 4096 bytes per chunk in (y, z, x) row-major order.
    pub fn write(&self, dest: &mut [u8])
        requires
            self.wf(),
            old(dest)@.len() == self.chunks@.len() * 4096,
        ensures
            final(dest)@ == self@.bytes(),
    {
        let n = self.chunks.len();
        let total = dest.len();
        let mut i: usize = 0;
        while i < n
            invariant
                i <= n,
                n == self.chunks@.len(),
                total == n * 4096,
                dest@.len() == n * 4096,
                forall|k: int| 0 <= k < i * 4096 ==> dest@[k]
                    == self.chunks@[k / 4096]@.ids[k % 4096],
            decreases n - i,
        {
            self.chunks[i].store(dest, i * 4096);
            i = i + 1;
        }
        assert(dest@ =~= self@.bytes());
    }

    /// Loads the block id of every voxel from `source`, which must hold
    /// exactly 4096 bytes per chunk in the layout that `write` produces.
    /// Every chunk is marked as modified; light levels are left alone. A
    /// buffer of any other length is rejected and the world stays as it was.
    pub fn read(&mut self, source: &[u8]) -> (r: Result<(), LoadError>)
        requires
            old(self).wf(),
        ensures
            r is Ok <==> source@.len() == old(self).chunks@.len() * 4096,
            r is Ok ==> final(self)@ == old(self)@.loaded(source@) && final(self).wf(),
            r is Err ==> r == Err::<(), LoadError>(LoadError::WrongLength) && *final(self) == *old(
                self,
            ),
    {
        let n = self.chunks.len();
        if (source.len() as u64) != (n as u64) * 4096 {
            return Err(LoadError::WrongLength);
        }
        let total = source.len();
        let mut i: usize = 0;
        while i < n
            invariant
                i <= n,
                n == self.chunks@.len(),
                n == old(self).chunks@.len(),
                total == n * 4096,
                source@.len() == n * 4096,
                self.w == old(self).w,
                self.h == old(self).h,
                self.d == old(self).d,
                self.volume == old(self).volume,
                forall|k: int|
                    0 <= k < n ==> #[trigger] self.chunks@[k]@ == if k < i {
                        old(self)@.loaded(source@).chunks[k]
                    } else {
                        old(self).chunks@[k]@
                    },
            decreases n - i,
        {
            self.chunks[i].load(source, i * 4096);
            i = i + 1;
        }
        proof {
            assert(self@ =~~= old(self)@.loaded(source@));
            lemma_loaded_wf(old(self)@, source@);
        }
        Ok(())
    }

    /// Generates a world of `w` x `h` x `d` chunks. `solid` holds the
    /// verdict of the density source for every voxel, chunk after chunk in
    /// storage order, 4096 per chunk in (y, z, x) row-major order.
    pub fn new(w: i32, h: i32, d: i32, solid: &[bool]) -> (r: Self)
        requires
            0 <= w <= MAX_CHUNK_COORD,
            0 <= h <= MAX_CHUNK_COORD,
            0 <= d <= MAX_CHUNK_COORD,
            w * h * d <= 0x7FFF_FFFF,
            solid@.len() == w * h * d * 4096,
        ensures
            r.wf(),
            r@ == generated(w as int, h as int, d as int, solid@),
    {
        proof {
            lemma_volume(w as int, h as int, d as int);
        }
        let volume: usize = ((w as u64) * (h as u64) * (d as u64)) as usize;
        let total = solid.len();
        let mut chunks: Vec<Chunk> = Vec::with_capacity(volume);
        let ghost target = generated(w as int, h as int, d as int, solid@);
        proof {
            assert(grid_index(w as int, d as int, 0, 0, 0) == 0) by (nonlinear_arith);
        }
        let mut y: i32 = 0;
        while y < h
            invariant
                0 <= y <= h,
                0 <= w <= MAX_CHUNK_COORD,
                0 <= h <= MAX_CHUNK_COORD,
                0 <= d <= MAX_CHUNK_COORD,
                w * h * d <= 0x7FFF_FFFF,
                solid@.len() == w * h * d * 4096,
                total == solid@.len(),
                volume == w * h * d,
                chunks@.len() <= w * h * d,
                target == generated(w as int, h as int, d as int, solid@),
                chunks@.len() == grid_index(w as int, d as int, 0, y as int, 0),
                forall|k: int|
                    0 <= k < chunks@.len() ==> (#[trigger] chunks@[k]).wf() && chunks@[k]@
                        == target.chunks[k],
            decreases h - y,
        {
            let mut z: i32 = 0;
            while z < d
                invariant
                    0 <= y < h,
                    0 <= z <= d,
                    0 <= w <= MAX_CHUNK_COORD,
                    0 <= h <= MAX_CHUNK_COORD,
                    0 <= d <= MAX_CHUNK_COORD,
                    w * h * d <= 0x7FFF_FFFF,
                    solid@.len() == w * h * d * 4096,
                    total == solid@.len(),
                    volume == w * h * d,
                    chunks@.len() <= w * h * d,
                    target == generated(w as int, h as int, d as int, solid@),
                    chunks@.len() == grid_index(w as int, d as int, 0, y as int, z as int),
                    forall|k: int|
                        0 <= k < chunks@.len() ==> (#[trigger] chunks@[k]).wf() && chunks@[k]@
                            == target.chunks[k],
                decreases d - z,
            {
                let mut x: i32 = 0;
                while x < w
                    invariant
                        0 <= y < h,
                        0 <= z < d,
                        0 <= x <= w,
                        0 <= w <= MAX_CHUNK_COORD,
                        0 <= h <= MAX_CHUNK_COORD,
                        0 <= d <= MAX_CHUNK_COORD,
                        w * h * d <= 0x7FFF_FFFF,
                        solid@.len() == w * h * d * 4096,
                        total == solid@.len(),
                        volume == w * h * d,
                        chunks@.len() <= w * h * d,
                        target == generated(w as int, h as int, d as int, solid@),
                        chunks@.len() == grid_index(w as int, d as int, x as int, y as int,
                            z as int),
                        forall|k: int|
                            0 <= k < chunks@.len() ==> (#[trigger] chunks@[k]).wf() && chunks@[k]@
                                == target.chunks[k],
                    decreases w - x,
                {
                    let i = chunks.len();
                    proof {
                        lemma_grid_index_bounds(
                            w as int,
                            h as int,
                            d as int,
                            x as int,
                            y as int,
                            z as int,
                        );
                        lemma_grid_coords(w as int, d as int, x as int, y as int, z as int);
                    }
                    let part = slice_subrange(solid, i * 4096, i * 4096 + 4096);
                    let chunk = Chunk::new(x, y, z, part);
                    proof {
                        assert(chunk@.ids =~= target.chunks[i as int].ids);
                        assert(chunk@ == target.chunks[i as int]);
                    }
                    chunks.push(chunk);
                    x = x + 1;
                }
                proof {
                    assert(grid_index(w as int, d as int, w as int, y as int, z as int)
                        == grid_index(w as int, d as int, 0, y as int, z + 1)) by (nonlinear_arith);
                }
                z = z + 1;
            }
            proof {
                assert(grid_index(w as int, d as int, 0, y as int, d as int) == grid_index(
                    w as int,
                    d as int,
                    0,
                    y + 1,
                    0,
                )) by (nonlinear_arith);
            }
            y = y + 1;
        }
        proof {
            assert(grid_index(w as int, d as int, 0, h as int, 0) == w * h * d)
                by (nonlinear_arith);
        }
        let r = Chunks { chunks, volume, w: w as u32, h: h as u32, d: d as u32 };
        proof {
            assert(r@ =~~= target);
            lemma_generated_wf(w as int, h as int, d as int, solid@);
        }
        r
    }
}

/// Replacing a block id keeps a world well formed.
pub proof fn lemma_with_id_wf(world: WorldView, x: int, y: int, z: int, id: u8)
    requires
        world.wf(),
    ensures
        world.with_id(x, y, z, id).wf(),
{
    let after = world.with_id(x, y, z, id);
    if world.in_world(x, y, z) {
        world.lemma_slot(x, y, z);
        assert forall|k: int| 0 <= k < after.chunks.len() implies {
            let c = #[trigger] after.chunks[k];
            &&& c.wf()
            &&& after.has_chunk(c.x, c.y, c.z)
            &&& after.chunk_index(c.x, c.y, c.z) == k
        } by {
            let c = world.chunks[k];
            assert(c.wf());
        }
    }
}

} // verus!

verus! {

/// Block id that an edit with identifier `id` stores: `id` reduced modulo 256.
pub open spec fn byte_of(id: int) -> u8 {
    (id % 256) as u8
}

/// Marking a chunk keeps a world well formed.
pub proof fn lemma_with_modified_wf(world: WorldView, cx: int, cy: int, cz: int)
    requires
        world.wf(),
    ensures
        world.with_modified(cx, cy, cz).wf(),
{
    let after = world.with_modified(cx, cy, cz);
    if world.has_chunk(cx, cy, cz) {
        world.lemma_chunk(cx, cy, cz);
        assert forall|k: int| 0 <= k < after.chunks.len() implies {
            let c = #[trigger] after.chunks[k];
            &&& c.wf()
            &&& after.has_chunk(c.x, c.y, c.z)
            &&& after.chunk_index(c.x, c.y, c.z) == k
        } by {
            let c = world.chunks[k];
            assert(c.wf());
        }
    }
}

/// Taking the mark off a chunk keeps a world well formed.
pub proof fn lemma_with_unmarked_wf(world: WorldView, index: int)
    requires
        world.wf(),
        0 <= index < world.chunks.len(),
    ensures
        world.with_unmarked(index).wf(),
{
    let after = world.with_unmarked(index);
    assert forall|k: int| 0 <= k < after.chunks.len() implies {
        let c = #[trigger] after.chunks[k];
        &&& c.wf()
        &&& after.has_chunk(c.x, c.y, c.z)
        &&& after.chunk_index(c.x, c.y, c.z) == k
    } by {
        let c = world.chunks[k];
        assert(c.wf());
    }
}

/// Loading a buffer of the right length keeps a world well formed.
pub proof fn lemma_loaded_wf(world: WorldView, bytes: Seq<u8>)
    requires
        world.wf(),
        bytes.len() == world.chunks.len() * 4096,
    ensures
        world.loaded(bytes).wf(),
{
    let after = world.loaded(bytes);
    assert forall|k: int| 0 <= k < after.chunks.len() implies {
        let c = #[trigger] after.chunks[k];
        &&& c.wf()
        &&& after.has_chunk(c.x, c.y, c.z)
        &&& after.chunk_index(c.x, c.y, c.z) == k
    } by {
        let c = world.chunks[k];
        assert(c.wf());
    }
}

/// The number of chunks of a grid bounds each of its extents' products.
pub proof fn lemma_volume(w: int, h: int, d: int)
    requires
        0 <= w <= 134217727,
        0 <= h <= 134217727,
        0 <= d,
    ensures
        0 <= w * h * d,
        w * h * d == (w * h) * d,
        0 <= w * h <= 134217727 * 134217727,
{
    assert(0 <= w * h <= 134217727 * 134217727 && 0 <= (w * h) * d) by (nonlinear_arith)
        requires
            0 <= w <= 134217727,
            0 <= h <= 134217727,
            0 <= d,
    ;
}

/// The grid index of a coordinate inside the grid determines the coordinate
/// by division and remainder.
pub proof fn lemma_grid_coords(w: int, d: int, x: int, y: int, z: int)
    requires
        0 <= x < w,
        0 <= z < d,
        0 <= y,
    ensures
        grid_index(w, d, x, y, z) % w == x,
        (grid_index(w, d, x, y, z) / w) % d == z,
        grid_index(w, d, x, y, z) / (w * d) == y,
{
    let i = grid_index(w, d, x, y, z);
    let r = y * d + z;
    vstd::arithmetic::div_mod::lemma_fundamental_div_mod_converse(i, w, r, x);
    vstd::arithmetic::div_mod::lemma_fundamental_div_mod_converse(r, d, y, z);
    assert(i == y * (w * d) + (z * w + x)) by (nonlinear_arith)
        requires
            i == (y * d + z) * w + x,
    ;
    assert(0 <= z * w + x < w * d) by (nonlinear_arith)
        requires
            0 <= x < w,
            0 <= z < d,
    ;
    vstd::arithmetic::div_mod::lemma_fundamental_div_mod_converse(i, w * d, y, z * w + x);
}

/// Generation produces a well-formed world.
pub proof fn lemma_generated_wf(w: int, h: int, d: int, solid: Seq<bool>)
    requires
        0 <= w <= 134217727,
        0 <= h <= 134217727,
        0 <= d <= 134217727,
        w * h * d <= 0x7FFF_FFFF,
    ensures
        generated(w, h, d, solid).wf(),
{
    let world = generated(w, h, d, solid);
    lemma_volume(w, h, d);
    assert forall|i: int| 0 <= i < world.chunks.len() implies {
        let c = #[trigger] world.chunks[i];
        &&& c.wf()
        &&& world.has_chunk(c.x, c.y, c.z)
        &&& world.chunk_index(c.x, c.y, c.z) == i
    } by {
        lemma_index_coords(w, h, d, i);
    }
}

/// Division and remainder take an index below the number of chunks to a
/// coordinate inside the grid whose grid index is that index.
pub proof fn lemma_index_coords(w: int, h: int, d: int, i: int)
    requires
        0 <= w,
        0 <= h,
        0 <= d,
        0 <= i < w * h * d,
    ensures
        0 <= i % w < w,
        0 <= (i / w) % d < d,
        0 <= i / (w * d) < h,
        grid_index(w, d, i % w, i / (w * d), (i / w) % d) == i,
{
    assert(w > 0 && h > 0 && d > 0 && w * d > 0) by (nonlinear_arith)
        requires
            0 <= w,
            0 <= h,
            0 <= d,
            0 <= i < w * h * d,
    ;
    let r = i / w;
    vstd::arithmetic::div_mod::lemma_fundamental_div_mod(i, w);
    vstd::arithmetic::div_mod::lemma_fundamental_div_mod(r, d);
    let y = r / d;
    let z = r % d;
    let x = i % w;
    assert(i == (y * d + z) * w + x) by (nonlinear_arith)
        requires
            i == w * r + x,
            r == d * y + z,
    ;
    assert(0 <= r) by (nonlinear_arith)
        requires
            i == w * r + x,
            0 <= x < w,
            0 <= i,
    ;
    assert(0 <= y) by (nonlinear_arith)
        requires
            r == d * y + z,
            0 <= z < d,
            0 <= r,
    ;
    lemma_grid_coords(w, d, x, y, z);
    assert(y < h) by (nonlinear_arith)
        requires
            i == (y * d + z) * w + x,
            i < w * h * d,
            0 <= x,
            0 <= z,
            0 < w,
            0 < d,
    ;
}

} // verus!
