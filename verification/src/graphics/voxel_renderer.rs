//! Surface mesh of one chunk.
//!
//! Every face of a solid voxel that is not hidden by a neighbour of the same
//! draw group becomes two triangles. All vertex attributes are integers:
//! positions count half voxels from the chunk origin, texture coordinates
//! count sixteenths of the atlas, and light counts 7500ths of full
//! brightness.

use vstd::prelude::*;
use crate::lighting::lightmap::{channel_level, is_channel};
use crate::voxels::{Block, BlockRegistry, CHUNK_D, CHUNK_H, CHUNK_W, Chunk, ChunkView, Voxel,
    views};
use crate::voxels::chunks::Chunks;
use crate::voxels::coords::{local_index, lemma_local_index};

verus! {

/// Number of attributes of a vertex: three for position, two for texture and
/// four for light.
pub const VERTEX_SIZE: usize = 9;

/// Divisor that turns a vertex light value into a fraction of full
/// brightness.
pub const LIGHT_SCALE: i32 = 7500;

/// One mesh vertex.
#[derive(Clone, Copy, Debug, PartialEq, Eq, Structural)]
pub struct Vertex {
    pub x: i32,
    pub y: i32,
    pub z: i32,
    pub u: i32,
    pub v: i32,
    pub r: i32,
    pub g: i32,
    pub b: i32,
    pub s: i32,
}

/// Place of a vertex on its voxel, and which corner of the texture cell it
/// shows. `dx`, `dy`, `dz` are -1 or 1; `u` and `v` are 0 or 1.
pub struct Corner {
    pub dx: int,
    pub dy: int,
    pub dz: int,
    pub u: int,
    pub v: int,
}

/// Outward normal of face `face`. Faces are numbered top, bottom, then the
/// faces towards +x, -x, +z and -z.
pub open spec fn normal(face: int) -> (int, int, int) {
    if face == 0 {
        (0, 1, 0)
    } else if face == 1 {
        (0, -1, 0)
    } else if face == 2 {
        (1, 0, 0)
    } else if face == 3 {
        (-1, 0, 0)
    } else if face == 4 {
        (0, 0, 1)
    } else {
        (0, 0, -1)
    }
}

/// Entry of a block's texture table that face `face` shows.
pub open spec fn texture_slot(face: int) -> int {
    if face == 0 {
        3
    } else if face == 1 {
        2
    } else if face == 2 {
        1
    } else if face == 3 {
        0
    } else if face == 4 {
        5
    } else {
        4
    }
}

/// Brightness of face `face` in percent.
pub open spec fn brightness(face: int) -> int {
    if face == 0 {
        100
    } else if face == 1 {
        75
    } else if face == 2 {
        95
    } else if face == 3 {
        85
    } else if face == 4 {
        90
    } else {
        80
    }
}

/// Corner number `q` (in `0..4`) of face `face`.
pub open spec fn corner(face: int, q: int) -> Corner {
    if face == 0 {
        if q == 0 {
            Corner { dx: -1, dy: 1, dz: -1, u: 1, v: 0 }
        } else if q == 1 {
            Corner { dx: -1, dy: 1, dz: 1, u: 1, v: 1 }
        } else if q == 2 {
            Corner { dx: 1, dy: 1, dz: 1, u: 0, v: 1 }
        } else {
            Corner { dx: 1, dy: 1, dz: -1, u: 0, v: 0 }
        }
    } else if face == 1 {
        if q == 0 {
            Corner { dx: -1, dy: -1, dz: -1, u: 0, v: 0 }
        } else if q == 1 {
            Corner { dx: 1, dy: -1, dz: 1, u: 1, v: 1 }
        } else if q == 2 {
            Corner { dx: -1, dy: -1, dz: 1, u: 0, v: 1 }
        } else {
            Corner { dx: 1, dy: -1, dz: -1, u: 1, v: 0 }
        }
    } else if face == 2 {
        if q == 0 {
            Corner { dx: 1, dy: -1, dz: -1, u: 1, v: 0 }
        } else if q == 1 {
            Corner { dx: 1, dy: 1, dz: -1, u: 1, v: 1 }
        } else if q == 2 {
            Corner { dx: 1, dy: 1, dz: 1, u: 0, v: 1 }
        } else {
            Corner { dx: 1, dy: -1, dz: 1, u: 0, v: 0 }
        }
    } else if face == 3 {
        if q == 0 {
            Corner { dx: -1, dy: -1, dz: -1, u: 0, v: 0 }
        } else if q == 1 {
            Corner { dx: -1, dy: 1, dz: 1, u: 1, v: 1 }
        } else if q == 2 {
            Corner { dx: -1, dy: 1, dz: -1, u: 0, v: 1 }
        } else {
            Corner { dx: -1, dy: -1, dz: 1, u: 1, v: 0 }
        }
    } else if face == 4 {
        if q == 0 {
            Corner { dx: -1, dy: -1, dz: 1, u: 0, v: 0 }
        } else if q == 1 {
            Corner { dx: 1, dy: 1, dz: 1, u: 1, v: 1 }
        } else if q == 2 {
            Corner { dx: -1, dy: 1, dz: 1, u: 0, v: 1 }
        } else {
            Corner { dx: 1, dy: -1, dz: 1, u: 1, v: 0 }
        }
    } else {
        if q == 0 {
            Corner { dx: -1, dy: -1, dz: -1, u: 1, v: 0 }
        } else if q == 1 {
            Corner { dx: -1, dy: 1, dz: -1, u: 1, v: 1 }
        } else if q == 2 {
            Corner { dx: 1, dy: 1, dz: -1, u: 0, v: 1 }
        } else {
            Corner { dx: 1, dy: -1, dz: -1, u: 0, v: 0 }
        }
    }
}

/// Corner that vertex number `k` (in `0..6`) of face `face` sits on. The two
/// triangles of a face share the diagonal that starts at corner 0.
pub open spec fn corner_order(face: int, k: int) -> int {
    if k <= 2 {
        k
    } else if k == 3 {
        0
    } else if face == 0 || face == 2 || face == 5 {
        if k == 4 {
            2
        } else {
            3
        }
    } else {
        if k == 4 {
            3
        } else {
            1
        }
    }
}

/// Index of the chunk that holds position (x, y, z) in a 3x3x3
/// neighbourhood of chunks. Positions are relative to the origin of the
/// centre chunk.
pub open spec fn hood_index(x: int, y: int, z: int) -> int {
    ((y / 16 + 1) * 3 + z / 16 + 1) * 3 + x / 16 + 1
}

/// The chunk that holds position (x, y, z) of the neighbourhood, if any.
pub open spec fn hood_chunk(hood: Seq<Option<ChunkView>>, x: int, y: int, z: int) -> Option<
    ChunkView,
> {
    let i = hood_index(x, y, z);
    if 0 <= i < hood.len() {
        hood[i]
    } else {
        None
    }
}

/// Whether every chunk of the neighbourhood holds 4096 voxels and light
/// words.
pub open spec fn hood_wf(hood: Seq<Option<ChunkView>>) -> bool {
    forall|i: int| 0 <= i < hood.len() && hood[i] is Some ==> (#[trigger] hood[i])->0.wf()
}

/// Whether a coordinate lies within one chunk of the centre chunk.
pub open spec fn near(v: int) -> bool {
    -16 <= v < 32
}

/// Light level of `channel` at position (x, y, z) of the neighbourhood;
/// zero where no chunk is.
pub open spec fn hood_level(hood: Seq<Option<ChunkView>>, x: int, y: int, z: int,
    channel: int) -> int {
    match hood_chunk(hood, x, y, z) {
        Some(c) => channel_level(c.lights[local_index(x % 16, y % 16, z % 16)], channel),
        None => 0,
    }
}

/// Block id at position (x, y, z) of the neighbourhood; absent where no
/// chunk is.
pub open spec fn hood_block(hood: Seq<Option<ChunkView>>, x: int, y: int, z: int) -> Option<u8> {
    match hood_chunk(hood, x, y, z) {
        Some(c) => Some(c.ids[local_index(x % 16, y % 16, z % 16)]),
        None => None,
    }
}

/// Whether a face of draw group `group` that looks at position (x, y, z) is
/// hidden. A missing chunk hides it; so does a block that is not air and is
/// registered with the same draw group.
pub open spec fn blocked(
    hood: Seq<Option<ChunkView>>,
    blocks: BlockRegistry,
    group: u8,
    x: int,
    y: int,
    z: int,
) -> bool {
    match hood_block(hood, x, y, z) {
        None => true,
        Some(id) => id != 0 && blocks.lookup(id) is Some && blocks.lookup(id)->0.draw_group
            == group,
    }
}

/// A single component of an offset, or zero.
pub open spec fn only(flag: bool, v: int) -> int {
    if flag {
        v
    } else {
        0
    }
}

/// Light of one vertex in `channel`, in 75ths of full light. (fx, fy, fz) is
/// the voxel in front of the face and (tx, ty, tz) points from the centre of
/// the face to the vertex, with a zero along the normal. The voxel in front
/// counts twice; the two voxels beside it towards the vertex and the one
/// diagonally behind them count once each.
pub open spec fn corner_sum(
    hood: Seq<Option<ChunkView>>,
    fx: int,
    fy: int,
    fz: int,
    tx: int,
    ty: int,
    tz: int,
    channel: int,
) -> int {
    2 * hood_level(hood, fx, fy, fz, channel) + hood_level(hood, fx + tx, fy + ty, fz + tz, channel)
        + only(tx != 0, hood_level(hood, fx + tx, fy, fz, channel)) + only(
        ty != 0,
        hood_level(hood, fx, fy + ty, fz, channel),
    ) + only(tz != 0, hood_level(hood, fx, fy, fz + tz, channel))
}

/// Vertex number `k` of face `face` of the voxel at (x, y, z) that holds
/// `block`.
pub open spec fn vertex_at(
    hood: Seq<Option<ChunkView>>,
    block: Block,
    x: int,
    y: int,
    z: int,
    face: int,
    k: int,
) -> Vertex {
    let q = corner(face, corner_order(face, k));
    let (nx, ny, nz) = normal(face);
    let tex = block.texture_faces[texture_slot(face)] as int;
    let (fx, fy, fz) = (x + nx, y + ny, z + nz);
    let (tx, ty, tz) = (q.dx - nx, q.dy - ny, q.dz - nz);
    Vertex {
        x: (2 * x + q.dx) as i32,
        y: (2 * y + q.dy) as i32,
        z: (2 * z + q.dz) as i32,
        u: (tex % 16 + q.u) as i32,
        v: (15 - tex / 16 + q.v) as i32,
        r: (corner_sum(hood, fx, fy, fz, tx, ty, tz, 0) * brightness(face)) as i32,
        g: (corner_sum(hood, fx, fy, fz, tx, ty, tz, 1) * brightness(face)) as i32,
        b: (corner_sum(hood, fx, fy, fz, tx, ty, tz, 2) * brightness(face)) as i32,
        s: (corner_sum(hood, fx, fy, fz, tx, ty, tz, 3) * brightness(face)) as i32,
    }
}

/// The first `n` vertices of face `face` of the voxel at (x, y, z).
pub open spec fn face_vertices(
    hood: Seq<Option<ChunkView>>,
    block: Block,
    x: int,
    y: int,
    z: int,
    face: int,
    n: int,
) -> Seq<Vertex>
    decreases n,
{
    if n <= 0 {
        Seq::empty()
    } else {
        face_vertices(hood, block, x, y, z, face, n - 1).push(
            vertex_at(hood, block, x, y, z, face, n - 1),
        )
    }
}

/// Whether face `face` of the voxel at (x, y, z) that holds `block` is
/// drawn.
pub open spec fn face_shown(
    hood: Seq<Option<ChunkView>>,
    blocks: BlockRegistry,
    block: Block,
    x: int,
    y: int,
    z: int,
    face: int,
) -> bool {
    let (nx, ny, nz) = normal(face);
    !blocked(hood, blocks, block.draw_group, x + nx, y + ny, z + nz)
}

/// Vertices of the first `n` faces of the voxel at (x, y, z) that holds
/// `block`: six for each face that is drawn.
pub open spec fn voxel_faces(
    hood: Seq<Option<ChunkView>>,
    blocks: BlockRegistry,
    block: Block,
    x: int,
    y: int,
    z: int,
    n: int,
) -> Seq<Vertex>
    decreases n,
{
    if n <= 0 {
        Seq::empty()
    } else {
        let before = voxel_faces(hood, blocks, block, x, y, z, n - 1);
        if face_shown(hood, blocks, block, x, y, z, n - 1) {
            before + face_vertices(hood, block, x, y, z, n - 1, 6)
        } else {
            before
        }
    }
}

/// Vertices of voxel number `i` of `chunk`: none for air and for blocks
/// without a definition.
pub open spec fn voxel_mesh(
    hood: Seq<Option<ChunkView>>,
    blocks: BlockRegistry,
    chunk: ChunkView,
    i: int,
) -> Seq<Vertex> {
    let id = chunk.ids[i];
    if id != 0 && blocks.lookup(id) is Some {
        voxel_faces(hood, blocks, blocks.lookup(id)->0, i % 16, i / 256, (i / 16) % 16, 6)
    } else {
        Seq::empty()
    }
}

/// Vertices of the first `n` voxels of `chunk` in (y, z, x) row-major order.
pub open spec fn mesh(
    hood: Seq<Option<ChunkView>>,
    blocks: BlockRegistry,
    chunk: ChunkView,
    n: int,
) -> Seq<Vertex>
    decreases n,
{
    if n <= 0 {
        Seq::empty()
    } else {
        mesh(hood, blocks, chunk, n - 1) + voxel_mesh(hood, blocks, chunk, n - 1)
    }
}

/// Floor of `x / a` for a positive divisor.
pub fn cdiv(x: i32, a: i32) -> (r: i32)
    requires
        a > 0,
    ensures
        r == x as int / a as int,
{
    if x >= 0 {
        x / a
    } else {
        let m: i32 = -(x + 1);
        let q: i32 = m / a;
        proof {
            vstd::arithmetic::div_mod::lemma_fundamental_div_mod(m as int, a as int);
            vstd::arithmetic::div_mod::lemma_mod_bound(m as int, a as int);
            vstd::arithmetic::div_mod::lemma_div_pos_is_pos(m as int, a as int);
            let rest = a - 1 - (m as int % a as int);
            assert(x as int == (-q - 1) * a + rest) by (nonlinear_arith)
                requires
                    m as int == a * q + (m as int % a as int),
                    rest == a - 1 - (m as int % a as int),
                    m == -(x + 1),
            ;
            vstd::arithmetic::div_mod::lemma_fundamental_div_mod_converse(
                x as int,
                a as int,
                -q - 1,
                rest,
            );
        }
        -q - 1
    }
}

/// Position inside a chunk of a coordinate that lies in the chunk before:
/// `size + x` for negative `x`, `x` otherwise.
pub fn local_neg(x: i32, size: i32) -> (r: i32)
    requires
        size >= 0,
    ensures
        r == if x < 0 {
            size + x
        } else {
            x as int
        },
{
    if x < 0 {
        size + x
    } else {
        x
    }
}

/// Position inside its chunk of a coordinate that lies at most one chunk
/// away from the centre chunk.
pub fn local(x: i32, size: i32) -> (r: i32)
    requires
        size >= 0,
    ensures
        r == if x >= size {
            x - size
        } else if x < 0 {
            size + x
        } else {
            x as int
        },
        size == 16 && near(x as int) ==> r == x as int % 16,
{
    if x >= size {
        x - size
    } else {
        local_neg(x, size)
    }
}

/// The chunk of the neighbourhood that holds position (x, y, z), if any.
pub fn get_chunk(x: i32, y: i32, z: i32, chunks: &[Option<Chunk>]) -> (r: Option<&Chunk>)
    ensures
        match r {
            Some(c) => hood_chunk(views(chunks@), x as int, y as int, z as int) == Some(c@),
            None => hood_chunk(views(chunks@), x as int, y as int, z as int) is None,
        },
{
    let index: i32 = ((cdiv(y, CHUNK_H) + 1) * 3 + cdiv(z, CHUNK_D) + 1) * 3 + cdiv(x, CHUNK_W)
        + 1;
    if index >= 0 && (index as usize) < chunks.len() {
        chunks[index as usize].as_ref()
    } else {
        None
    }
}

/// Whether the neighbourhood has a chunk at position (x, y, z).
pub fn is_chunk(x: i32, y: i32, z: i32, chunks: &[Option<Chunk>]) -> (r: bool)
    ensures
        r == hood_chunk(views(chunks@), x as int, y as int, z as int) is Some,
{
    get_chunk(x, y, z, chunks).is_some()
}

/// Light level of `channel` at position (x, y, z) of the neighbourhood.
pub fn light(x: i32, y: i32, z: i32, channel: i32, chunks: &[Option<Chunk>]) -> (r: u8)
    requires
        hood_wf(views(chunks@)),
        near(x as int),
        near(y as int),
        near(z as int),
        is_channel(channel as int),
    ensures
        r == hood_level(views(chunks@), x as int, y as int, z as int, channel as int),
        r <= 15,
{
    if let Some(chunk) = get_chunk(x, y, z, chunks) {
        chunk.lightmap.get(local(x, CHUNK_W), local(y, CHUNK_H), local(z, CHUNK_D), channel)
    } else {
        0
    }
}

/// The voxel at position (x, y, z) of the neighbourhood.
pub fn voxel(x: i32, y: i32, z: i32, chunks: &[Option<Chunk>]) -> (r: Option<&Voxel>)
    requires
        near(x as int),
        near(y as int),
        near(z as int),
    ensures
        match r {
            Some(v) => hood_block(views(chunks@), x as int, y as int, z as int) == Some(v.id),
            None => hood_block(views(chunks@), x as int, y as int, z as int) is None,
        },
{
    if let Some(chunk) = get_chunk(x, y, z, chunks) {
        let lx = local(x, CHUNK_W) as usize;
        let ly = local(y, CHUNK_H) as usize;
        let lz = local(z, CHUNK_D) as usize;
        proof {
            lemma_local_index(lx as int, ly as int, lz as int);
        }
        Some(&chunk.voxels[(ly * 16 + lz) * 16 + lx])
    } else {
        None
    }
}

/// Whether a face of draw group `group` that looks at position (x, y, z) is
/// hidden.
pub fn is_blocked(
    x: i32,
    y: i32,
    z: i32,
    blocks: &BlockRegistry,
    group: u8,
    chunks: &[Option<Chunk>],
) -> (r: bool)
    requires
        blocks.wf(),
        near(x as int),
        near(y as int),
        near(z as int),
    ensures
        r == blocked(views(chunks@), *blocks, group, x as int, y as int, z as int),
{
    if !is_chunk(x, y, z, chunks) {
        return true;
    }
    match voxel(x, y, z, chunks) {
        Some(voxel) => {
            let block_id = voxel.id;
            if block_id != 0 {
                match blocks.get(block_id) {
                    Some(local_block) => local_block.draw_group == group,
                    None => false,
                }
            } else {
                false
            }
        },
        None => false,
    }
}

/// Appends one vertex to `buffer`.
pub fn vertex(
    buffer: &mut Vec<Vertex>,
    x: i32,
    y: i32,
    z: i32,
    u: i32,
    v: i32,
    r: i32,
    g: i32,
    b: i32,
    s: i32,
)
    ensures
        final(buffer)@ == old(buffer)@.push(Vertex { x, y, z, u, v, r, g, b, s }),
{
    buffer.push(Vertex { x, y, z, u, v, r, g, b, s });
}

/// Texture rectangle of atlas cell `index` in sixteenths of the atlas: left,
/// bottom, right and top edge. Cells are numbered row by row from the top
/// left of the atlas, while texture coordinates grow upwards.
pub fn setup_uv(index: usize) -> (r: (i32, i32, i32, i32))
    requires
        index < 256,
    ensures
        r.0 == index % 16,
        r.1 == 15 - index / 16,
        r.2 == r.0 + 1,
        r.3 == r.1 + 1,
{
    let u1: i32 = (index % 16) as i32;
    let v1: i32 = 16 - (1 + index / 16) as i32;
    (u1, v1, u1 + 1, v1 + 1)
}

} // verus!

verus! {

/// Outward normal of face `face`.
fn normal_of(face: usize) -> (r: (i32, i32, i32))
    requires
        face < 6,
    ensures
        (r.0 as int, r.1 as int, r.2 as int) == normal(face as int),
{
    if face == 0 {
        (0, 1, 0)
    } else if face == 1 {
        (0, -1, 0)
    } else if face == 2 {
        (1, 0, 0)
    } else if face == 3 {
        (-1, 0, 0)
    } else if face == 4 {
        (0, 0, 1)
    } else {
        (0, 0, -1)
    }
}

/// Entry of a block's texture table that face `face` shows.
fn texture_slot_of(face: usize) -> (r: usize)
    requires
        face < 6,
    ensures
        r == texture_slot(face as int),
        r < 6,
{
    if face == 0 {
        3
    } else if face == 1 {
        2
    } else if face == 2 {
        1
    } else if face == 3 {
        0
    } else if face == 4 {
        5
    } else {
        4
    }
}

/// Brightness of face `face` in percent.
fn brightness_of(face: usize) -> (r: i32)
    requires
        face < 6,
    ensures
        r == brightness(face as int),
        0 < r <= 100,
{
    if face == 0 {
        100
    } else if face == 1 {
        75
    } else if face == 2 {
        95
    } else if face == 3 {
        85
    } else if face == 4 {
        90
    } else {
        80
    }
}

/// Corner number `q` of face `face`: offset from the voxel centre in half
/// voxels, then the texture corner.
fn corner_of(face: usize, q: usize) -> (r: (i32, i32, i32, i32, i32))
    requires
        face < 6,
        q < 4,
    ensures
        r.0 == corner(face as int, q as int).dx,
        r.1 == corner(face as int, q as int).dy,
        r.2 == corner(face as int, q as int).dz,
        r.3 == corner(face as int, q as int).u,
        r.4 == corner(face as int, q as int).v,
        r.0 == 1 || r.0 == -1,
        r.1 == 1 || r.1 == -1,
        r.2 == 1 || r.2 == -1,
        r.3 == 0 || r.3 == 1,
        r.4 == 0 || r.4 == 1,
        r.0 - normal(face as int).0 == 0 || r.1 - normal(face as int).1 == 0 || r.2 - normal(
            face as int,
        ).2 == 0,
{
    if face == 0 {
        if q == 0 {
            (-1, 1, -1, 1, 0)
        } else if q == 1 {
            (-1, 1, 1, 1, 1)
        } else if q == 2 {
            (1, 1, 1, 0, 1)
        } else {
            (1, 1, -1, 0, 0)
        }
    } else if face == 1 {
        if q == 0 {
            (-1, -1, -1, 0, 0)
        } else if q == 1 {
            (1, -1, 1, 1, 1)
        } else if q == 2 {
            (-1, -1, 1, 0, 1)
        } else {
            (1, -1, -1, 1, 0)
        }
    } else if face == 2 {
        if q == 0 {
            (1, -1, -1, 1, 0)
        } else if q == 1 {
            (1, 1, -1, 1, 1)
        } else if q == 2 {
            (1, 1, 1, 0, 1)
        } else {
            (1, -1, 1, 0, 0)
        }
    } else if face == 3 {
        if q == 0 {
            (-1, -1, -1, 0, 0)
        } else if q == 1 {
            (-1, 1, 1, 1, 1)
        } else if q == 2 {
            (-1, 1, -1, 0, 1)
        } else {
            (-1, -1, 1, 1, 0)
        }
    } else if face == 4 {
        if q == 0 {
            (-1, -1, 1, 0, 0)
        } else if q == 1 {
            (1, 1, 1, 1, 1)
        } else if q == 2 {
            (-1, 1, 1, 0, 1)
        } else {
            (1, -1, 1, 1, 0)
        }
    } else {
        if q == 0 {
            (-1, -1, -1, 1, 0)
        } else if q == 1 {
            (-1, 1, -1, 1, 1)
        } else if q == 2 {
            (1, 1, -1, 0, 1)
        } else {
            (1, -1, -1, 0, 0)
        }
    }
}

/// Corner that vertex number `k` of face `face` sits on.
fn corner_order_of(face: usize, k: usize) -> (r: usize)
    requires
        face < 6,
        k < 6,
    ensures
        r == corner_order(face as int, k as int),
        r < 4,
{
    if k <= 2 {
        k
    } else if k == 3 {
        0
    } else if face == 0 || face == 2 || face == 5 {
        if k == 4 {
            2
        } else {
            3
        }
    } else {
        if k == 4 {
            3
        } else {
            1
        }
    }
}

/// Light of one vertex in `channel`, in 75ths of full light.
fn corner_light(
    fx: i32,
    fy: i32,
    fz: i32,
    tx: i32,
    ty: i32,
    tz: i32,
    channel: i32,
    chunks: &[Option<Chunk>],
) -> (r: i32)
    requires
        hood_wf(views(chunks@)),
        -1 <= fx <= 16,
        -1 <= fy <= 16,
        -1 <= fz <= 16,
        -1 <= tx <= 1,
        -1 <= ty <= 1,
        -1 <= tz <= 1,
        tx == 0 || ty == 0 || tz == 0,
        is_channel(channel as int),
    ensures
        r == corner_sum(
            views(chunks@),
            fx as int,
            fy as int,
            fz as int,
            tx as int,
            ty as int,
            tz as int,
            channel as int,
        ),
        0 <= r <= 75,
{
    let mut sum: i32 = 2 * (light(fx, fy, fz, channel, chunks) as i32);
    sum = sum + light(fx + tx, fy + ty, fz + tz, channel, chunks) as i32;
    if tx != 0 {
        sum = sum + light(fx + tx, fy, fz, channel, chunks) as i32;
    }
    if ty != 0 {
        sum = sum + light(fx, fy + ty, fz, channel, chunks) as i32;
    }
    if tz != 0 {
        sum = sum + light(fx, fy, fz + tz, channel, chunks) as i32;
    }
    sum
}

/// Appends the six vertices of face `face` of the voxel at (x, y, z).
fn emit_face(
    buffer: &mut Vec<Vertex>,
    chunks: &[Option<Chunk>],
    block: &Block,
    x: i32,
    y: i32,
    z: i32,
    face: usize,
)
    requires
        hood_wf(views(chunks@)),
        block.wf(),
        0 <= x < 16,
        0 <= y < 16,
        0 <= z < 16,
        face < 6,
    ensures
        final(buffer)@ == old(buffer)@ + face_vertices(
            views(chunks@),
            *block,
            x as int,
            y as int,
            z as int,
            face as int,
            6,
        ),
{
    let (nx, ny, nz) = normal_of(face);
    let percent = brightness_of(face);
    let slot = texture_slot_of(face);
    let (u1, v1, _, _) = setup_uv(block.texture_faces[slot] as usize);
    let (fx, fy, fz) = (x + nx, y + ny, z + nz);
    let mut k: usize = 0;
    assert(buffer@ =~= old(buffer)@ + face_vertices(
            views(chunks@),
        *block,
        x as int,
        y as int,
        z as int,
        face as int,
        0,
    ));
    while k < 6
        invariant
            k <= 6,
            face < 6,
            hood_wf(views(chunks@)),
            block.wf(),
            0 <= x < 16,
            0 <= y < 16,
            0 <= z < 16,
            (nx as int, ny as int, nz as int) == normal(face as int),
            percent == brightness(face as int),
            slot == texture_slot(face as int),
            u1 == block.texture_faces[slot as int] % 16,
            v1 == 15 - block.texture_faces[slot as int] / 16,
            0 <= u1 < 16,
            0 <= v1 < 16,
            fx == x + nx,
            fy == y + ny,
            fz == z + nz,
            buffer@ == old(buffer)@ + face_vertices(
            views(chunks@),
                *block,
                x as int,
                y as int,
                z as int,
                face as int,
                k as int,
            ),
        decreases 6 - k,
    {
        let (dx, dy, dz, cu, cv) = corner_of(face, corner_order_of(face, k));
        let (tx, ty, tz) = (dx - nx, dy - ny, dz - nz);
        let r = corner_light(fx, fy, fz, tx, ty, tz, 0, chunks) * percent;
        let g = corner_light(fx, fy, fz, tx, ty, tz, 1, chunks) * percent;
        let b = corner_light(fx, fy, fz, tx, ty, tz, 2, chunks) * percent;
        let s = corner_light(fx, fy, fz, tx, ty, tz, 3, chunks) * percent;
        let ghost before = buffer@;
        vertex(buffer, 2 * x + dx, 2 * y + dy, 2 * z + dz, u1 + cu, v1 + cv, r, g, b, s);
        proof {
            let fv = face_vertices(
            views(chunks@),
                *block,
                x as int,
                y as int,
                z as int,
                face as int,
                k as int,
            );
            let v = vertex_at(views(chunks@), *block, x as int, y as int, z as int, face as int,
                k as int);
            assert(buffer@ == before.push(v));
            assert(buffer@ =~= old(buffer)@ + fv.push(v));
        }
        k = k + 1;
    }
}

/// Builder of chunk meshes; owns the vertex buffer that it fills.
pub struct VoxelRenderer {
    buffer: Vec<Vertex>,
}

impl View for VoxelRenderer {
    type V = Seq<Vertex>;

    closed spec fn view(&self) -> Seq<Vertex> {
        self.buffer@
    }
}

impl VoxelRenderer {
    /// A renderer with room for `capacity` faces and no vertices.
    pub fn new(capacity: usize) -> (r: Self)
        requires
            capacity * 6 <= usize::MAX,
        ensures
            r@.len() == 0,
    {
        Self { buffer: Vec::with_capacity(capacity * 6) }
    }

    /// The vertices of the mesh built last.
    pub fn vertices(&self) -> (r: &Vec<Vertex>)
        ensures
            r@ == self@,
    {
        &self.buffer
    }

    /// Builds the mesh of `chunk` and returns its number of vertices. The
    /// neighbourhood `chunks` holds the 3x3x3 chunks around and including
    /// `chunk`, in (y, z, x) row-major order, with `None` where the world
    /// ends; it decides which faces are hidden and how bright each vertex
    /// is.
    pub fn render(&mut self, chunk: &Chunk, chunks: &Vec<Option<Chunk>>, blocks: &BlockRegistry)
        -> (count: usize)
        requires
            hood_wf(views(chunks@)),
            blocks.wf(),
        ensures
            final(self)@ == mesh(views(chunks@), *blocks, chunk@, 4096),
            count == final(self)@.len(),
    {
        self.buffer.clear();
        let hood = chunks.as_slice();
        let mut i: usize = 0;
        assert(self.buffer@ =~= mesh(views(chunks@), *blocks, chunk@, 0));
        while i < 4096
            invariant
                i <= 4096,
                hood@ == chunks@,
                hood_wf(views(chunks@)),
                blocks.wf(),
                self.buffer@ == mesh(views(chunks@), *blocks, chunk@, i as int),
            decreases 4096 - i,
        {
            let x: i32 = (i % 16) as i32;
            let z: i32 = ((i / 16) % 16) as i32;
            let y: i32 = (i / 256) as i32;
            let id = chunk.voxels[i].id;
            let ghost done = self.buffer@;
            if id != 0 {
                if let Some(block) = blocks.get(id) {
                    let group = block.draw_group;
                    let mut face: usize = 0;
                    assert(self.buffer@ =~= done + voxel_faces(
            views(chunks@),
                        *blocks,
                        *block,
                        x as int,
                        y as int,
                        z as int,
                        0,
                    ));
                    while face < 6
                        invariant
                            face <= 6,
                            hood@ == chunks@,
                            hood_wf(views(chunks@)),
                            blocks.wf(),
                            block.wf(),
                            group == block.draw_group,
                            0 <= x < 16,
                            0 <= y < 16,
                            0 <= z < 16,
                            self.buffer@ == done + voxel_faces(
            views(chunks@),
                                *blocks,
                                *block,
                                x as int,
                                y as int,
                                z as int,
                                face as int,
                            ),
                        decreases 6 - face,
                    {
                        let (nx, ny, nz) = normal_of(face);
                        let ghost before = voxel_faces(
            views(chunks@),
                            *blocks,
                            *block,
                            x as int,
                            y as int,
                            z as int,
                            face as int,
                        );
                        if !is_blocked(x + nx, y + ny, z + nz, blocks, group, hood) {
                            emit_face(&mut self.buffer, hood, block, x, y, z, face);
                            assert(self.buffer@ =~= done + (before + face_vertices(
            views(chunks@),
                                *block,
                                x as int,
                                y as int,
                                z as int,
                                face as int,
                                6,
                            )));
                        }
                        face = face + 1;
                    }
                }
            }
            assert(self.buffer@ =~= done + voxel_mesh(views(chunks@), *blocks, chunk@, i as int));
            i = i + 1;
        }
        self.buffer.len()
    }

    /// Rebuilds the mesh of chunk number `index` if the chunk is marked as
    /// modified, and takes the mark off. Returns the number of vertices of
    /// the new mesh, or nothing if the chunk was not marked; then the
    /// renderer keeps the mesh it had.
    pub fn rebuild(&mut self, index: usize, chunks: &mut Chunks, blocks: &BlockRegistry) -> (r:
        Option<usize>)
        requires
            old(chunks).wf(),
            index < old(chunks).chunks@.len(),
            blocks.wf(),
        ensures
            final(chunks).wf(),
            match r {
                None => {
                    &&& !old(chunks)@.chunks[index as int].modified
                    &&& *final(chunks) == *old(chunks)
                    &&& final(self)@ == old(self)@
                },
                Some(count) => {
                    &&& old(chunks)@.chunks[index as int].modified
                    &&& final(chunks)@ == old(chunks)@.with_unmarked(index as int)
                    &&& final(self)@ == mesh(
                        final(chunks)@.hood(index as int),
                        *blocks,
                        final(chunks)@.chunks[index as int],
                        4096,
                    )
                    &&& count == final(self)@.len()
                },
            },
    {
        if !chunks.chunks[index].modified {
            return None;
        }
        proof {
            crate::voxels::chunks::lemma_with_unmarked_wf(chunks@, index as int);
        }
        chunks.chunks[index].modified = false;
        assert(chunks@ =~~= old(chunks)@.with_unmarked(index as int));
        let hood = chunks.neighborhood(index);
        let count = self.render(&chunks.chunks[index], &hood, blocks);
        Some(count)
    }
}

} // verus!

verus! {

/// Offset of vertex number `k` of face `face` from the centre of its voxel,
/// in half voxels.
pub open spec fn vertex_offset(face: int, k: int) -> (int, int, int) {
    let q = corner(face, corner_order(face, k));
    (q.dx, q.dy, q.dz)
}

/// Cross product of the edges that lead from vertex `a` to vertices `b` and
/// `c`.
pub open spec fn edge_cross(a: (int, int, int), b: (int, int, int), c: (int, int, int)) -> (
    int,
    int,
    int,
) {
    let (ux, uy, uz) = (b.0 - a.0, b.1 - a.1, b.2 - a.2);
    let (vx, vy, vz) = (c.0 - a.0, c.1 - a.1, c.2 - a.2);
    (uy * vz - uz * vy, uz * vx - ux * vz, ux * vy - uy * vx)
}

/// Both triangles of every face wind the same way: seen from outside the
/// voxel their vertices run counter-clockwise, so the cross product of the
/// edges at the first vertex points along the outward normal. Every vertex
/// lies on the face.
pub proof fn lemma_winding_outward(face: int, triangle: int)
    requires
        0 <= face < 6,
        0 <= triangle < 2,
    ensures
        ({
            let k = 3 * triangle;
            let (nx, ny, nz) = normal(face);
            edge_cross(
                vertex_offset(face, k),
                vertex_offset(face, k + 1),
                vertex_offset(face, k + 2),
            ) == (4 * nx, 4 * ny, 4 * nz)
        }),
        forall|k: int|
            0 <= k < 6 ==> {
                let (nx, ny, nz) = normal(face);
                let (dx, dy, dz) = #[trigger] vertex_offset(face, k);
                dx * nx + dy * ny + dz * nz == 1
            },
{
    let k = 3 * triangle;
    let a = vertex_offset(face, k);
    let b = vertex_offset(face, k + 1);
    let c = vertex_offset(face, k + 2);
    let (nx, ny, nz) = normal(face);
    if face == 0 && triangle == 0 {
        assert(a == (-1int, 1int, -1int));
        assert(b == (-1int, 1int, 1int));
        assert(c == (1int, 1int, 1int));
        assert(edge_cross(a, b, c) == (4 * nx, 4 * ny, 4 * nz)) by (nonlinear_arith)
            requires
                a == (-1int, 1int, -1int),
                b == (-1int, 1int, 1int),
                c == (1int, 1int, 1int),
                nx == 0,
                ny == 1,
                nz == 0,
        ;
    } else if face == 0 && triangle == 1 {
        assert(a == (-1int, 1int, -1int));
        assert(b == (1int, 1int, 1int));
        assert(c == (1int, 1int, -1int));
        assert(edge_cross(a, b, c) == (4 * nx, 4 * ny, 4 * nz)) by (nonlinear_arith)
            requires
                a == (-1int, 1int, -1int),
                b == (1int, 1int, 1int),
                c == (1int, 1int, -1int),
                nx == 0,
                ny == 1,
                nz == 0,
        ;
    } else if face == 1 && triangle == 0 {
        assert(a == (-1int, -1int, -1int));
        assert(b == (1int, -1int, 1int));
        assert(c == (-1int, -1int, 1int));
        assert(edge_cross(a, b, c) == (4 * nx, 4 * ny, 4 * nz)) by (nonlinear_arith)
            requires
                a == (-1int, -1int, -1int),
                b == (1int, -1int, 1int),
                c == (-1int, -1int, 1int),
                nx == 0,
                ny == -1,
                nz == 0,
        ;
    } else if face == 1 && triangle == 1 {
        assert(a == (-1int, -1int, -1int));
        assert(b == (1int, -1int, -1int));
        assert(c == (1int, -1int, 1int));
        assert(edge_cross(a, b, c) == (4 * nx, 4 * ny, 4 * nz)) by (nonlinear_arith)
            requires
                a == (-1int, -1int, -1int),
                b == (1int, -1int, -1int),
                c == (1int, -1int, 1int),
                nx == 0,
                ny == -1,
                nz == 0,
        ;
    } else if face == 2 && triangle == 0 {
        assert(a == (1int, -1int, -1int));
        assert(b == (1int, 1int, -1int));
        assert(c == (1int, 1int, 1int));
        assert(edge_cross(a, b, c) == (4 * nx, 4 * ny, 4 * nz)) by (nonlinear_arith)
            requires
                a == (1int, -1int, -1int),
                b == (1int, 1int, -1int),
                c == (1int, 1int, 1int),
                nx == 1,
                ny == 0,
                nz == 0,
        ;
    } else if face == 2 && triangle == 1 {
        assert(a == (1int, -1int, -1int));
        assert(b == (1int, 1int, 1int));
        assert(c == (1int, -1int, 1int));
        assert(edge_cross(a, b, c) == (4 * nx, 4 * ny, 4 * nz)) by (nonlinear_arith)
            requires
                a == (1int, -1int, -1int),
                b == (1int, 1int, 1int),
                c == (1int, -1int, 1int),
                nx == 1,
                ny == 0,
                nz == 0,
        ;
    } else if face == 3 && triangle == 0 {
        assert(a == (-1int, -1int, -1int));
        assert(b == (-1int, 1int, 1int));
        assert(c == (-1int, 1int, -1int));
        assert(edge_cross(a, b, c) == (4 * nx, 4 * ny, 4 * nz)) by (nonlinear_arith)
            requires
                a == (-1int, -1int, -1int),
                b == (-1int, 1int, 1int),
                c == (-1int, 1int, -1int),
                nx == -1,
                ny == 0,
                nz == 0,
        ;
    } else if face == 3 && triangle == 1 {
        assert(a == (-1int, -1int, -1int));
        assert(b == (-1int, -1int, 1int));
        assert(c == (-1int, 1int, 1int));
        assert(edge_cross(a, b, c) == (4 * nx, 4 * ny, 4 * nz)) by (nonlinear_arith)
            requires
                a == (-1int, -1int, -1int),
                b == (-1int, -1int, 1int),
                c == (-1int, 1int, 1int),
                nx == -1,
                ny == 0,
                nz == 0,
        ;
    } else if face == 4 && triangle == 0 {
        assert(a == (-1int, -1int, 1int));
        assert(b == (1int, 1int, 1int));
        assert(c == (-1int, 1int, 1int));
        assert(edge_cross(a, b, c) == (4 * nx, 4 * ny, 4 * nz)) by (nonlinear_arith)
            requires
                a == (-1int, -1int, 1int),
                b == (1int, 1int, 1int),
                c == (-1int, 1int, 1int),
                nx == 0,
                ny == 0,
                nz == 1,
        ;
    } else if face == 4 && triangle == 1 {
        assert(a == (-1int, -1int, 1int));
        assert(b == (1int, -1int, 1int));
        assert(c == (1int, 1int, 1int));
        assert(edge_cross(a, b, c) == (4 * nx, 4 * ny, 4 * nz)) by (nonlinear_arith)
            requires
                a == (-1int, -1int, 1int),
                b == (1int, -1int, 1int),
                c == (1int, 1int, 1int),
                nx == 0,
                ny == 0,
                nz == 1,
        ;
    } else if face == 5 && triangle == 0 {
        assert(a == (-1int, -1int, -1int));
        assert(b == (-1int, 1int, -1int));
        assert(c == (1int, 1int, -1int));
        assert(edge_cross(a, b, c) == (4 * nx, 4 * ny, 4 * nz)) by (nonlinear_arith)
            requires
                a == (-1int, -1int, -1int),
                b == (-1int, 1int, -1int),
                c == (1int, 1int, -1int),
                nx == 0,
                ny == 0,
                nz == -1,
        ;
    } else if face == 5 && triangle == 1 {
        assert(a == (-1int, -1int, -1int));
        assert(b == (1int, 1int, -1int));
        assert(c == (1int, -1int, -1int));
        assert(edge_cross(a, b, c) == (4 * nx, 4 * ny, 4 * nz)) by (nonlinear_arith)
            requires
                a == (-1int, -1int, -1int),
                b == (1int, 1int, -1int),
                c == (1int, -1int, -1int),
                nx == 0,
                ny == 0,
                nz == -1,
        ;
    }
    assert forall|j: int| 0 <= j < 6 implies {
        let (mx, my, mz) = normal(face);
        let (dx, dy, dz) = #[trigger] vertex_offset(face, j);
        dx * mx + dy * my + dz * mz == 1
    } by {
        lemma_corner_on_face(face, corner_order(face, j));
    }
}

/// Every corner of a face lies on the face, half a voxel from the centre
/// along each axis.
proof fn lemma_corner_on_face(face: int, q: int)
    requires
        0 <= face < 6,
    ensures
        ({
            let (nx, ny, nz) = normal(face);
            let c = corner(face, q);
            &&& c.dx * nx + c.dy * ny + c.dz * nz == 1
            &&& c.dx == 1 || c.dx == -1
            &&& c.dy == 1 || c.dy == -1
            &&& c.dz == 1 || c.dz == -1
            &&& nx != 0 ==> c.dx == nx
            &&& ny != 0 ==> c.dy == ny
            &&& nz != 0 ==> c.dz == nz
        }),
{
    if face == 0 {
    } else if face == 1 {
    } else if face == 2 {
    } else if face == 3 {
    } else if face == 4 {
    } else {
    }
}

/// The light of a vertex is a fraction of full brightness: each channel
/// lies between 0 and 7500.
pub proof fn lemma_vertex_light_normalized(
    hood: Seq<Option<ChunkView>>,
    block: Block,
    x: int,
    y: int,
    z: int,
    face: int,
    k: int,
)
    requires
        0 <= face < 6,
    ensures
        0 <= vertex_at(hood, block, x, y, z, face, k).r <= 7500,
        0 <= vertex_at(hood, block, x, y, z, face, k).g <= 7500,
        0 <= vertex_at(hood, block, x, y, z, face, k).b <= 7500,
        0 <= vertex_at(hood, block, x, y, z, face, k).s <= 7500,
{
    let q = corner(face, corner_order(face, k));
    let (nx, ny, nz) = normal(face);
    let (fx, fy, fz) = (x + nx, y + ny, z + nz);
    let (tx, ty, tz) = (q.dx - nx, q.dy - ny, q.dz - nz);
    assert(tx == 0 || ty == 0 || tz == 0);
    assert forall|c: int| 0 <= c < 4 implies 0 <= (#[trigger] corner_sum(
        hood,
        fx,
        fy,
        fz,
        tx,
        ty,
        tz,
        c,
    )) * brightness(face) <= 7500 by {
        let sum = corner_sum(hood, fx, fy, fz, tx, ty, tz, c);
        lemma_hood_level_range(hood, fx, fy, fz, c);
        lemma_hood_level_range(hood, fx + tx, fy + ty, fz + tz, c);
        lemma_hood_level_range(hood, fx + tx, fy, fz, c);
        lemma_hood_level_range(hood, fx, fy + ty, fz, c);
        lemma_hood_level_range(hood, fx, fy, fz + tz, c);
        assert(0 <= sum <= 75);
        assert(0 <= sum * brightness(face) <= 7500) by (nonlinear_arith)
            requires
                0 <= sum <= 75,
                0 <= brightness(face) <= 100,
        ;
    }
    assert(0 <= corner_sum(hood, fx, fy, fz, tx, ty, tz, 0) * brightness(face) <= 7500);
    assert(0 <= corner_sum(hood, fx, fy, fz, tx, ty, tz, 1) * brightness(face) <= 7500);
    assert(0 <= corner_sum(hood, fx, fy, fz, tx, ty, tz, 2) * brightness(face) <= 7500);
    assert(0 <= corner_sum(hood, fx, fy, fz, tx, ty, tz, 3) * brightness(face) <= 7500);
}

/// Every level of a neighbourhood is a light level.
pub proof fn lemma_hood_level_range(
    hood: Seq<Option<ChunkView>>,
    x: int,
    y: int,
    z: int,
    channel: int,
)
    requires
        is_channel(channel),
    ensures
        0 <= hood_level(hood, x, y, z, channel) <= 15,
{
}

} // verus!
