//! World, chunk and local coordinates.
//!
//! A world coordinate splits into a chunk coordinate (floor division by the
//! chunk edge) and a local coordinate inside the chunk. The split is a
//! bijection between integers and pairs (chunk, local) with `0 <= local < 16`.

use vstd::prelude::*;

verus! {

/// Chunk coordinate that holds world coordinate `v`: the floor of `v / 16`.
pub open spec fn chunk_of(v: int) -> int {
    v / 16
}

/// Position of world coordinate `v` inside its chunk, in `0..16`.
pub open spec fn local_of(v: int) -> int {
    v % 16
}

/// World coordinate of local position `l` inside chunk `c`.
pub open spec fn world_of(c: int, l: int) -> int {
    c * 16 + l
}

/// Whether `l` is a valid local coordinate.
pub open spec fn is_local(l: int) -> bool {
    0 <= l < 16
}

/// Row-major (y, z, x) position of a local coordinate triple inside a chunk.
pub open spec fn local_index(lx: int, ly: int, lz: int) -> int {
    (ly * 16 + lz) * 16 + lx
}

/// Splitting a world coordinate and joining the parts again gives the
/// coordinate back, for negative coordinates as well; the local part always
/// lies in `0..16`.
pub proof fn lemma_split_join(v: int)
    ensures
        world_of(chunk_of(v), local_of(v)) == v,
        is_local(local_of(v)),
        local_of(v) == v - chunk_of(v) * 16,
{
}

/// Joining a chunk coordinate with a valid local coordinate and splitting the
/// result gives both parts back.
pub proof fn lemma_join_split(c: int, l: int)
    requires
        is_local(l),
    ensures
        chunk_of(world_of(c, l)) == c,
        local_of(world_of(c, l)) == l,
{
}

/// Two world coordinates with the same chunk and local parts are equal.
pub proof fn lemma_split_injective(a: int, b: int)
    requires
        chunk_of(a) == chunk_of(b),
        local_of(a) == local_of(b),
    ensures
        a == b,
{
}

/// Valid local triples map to distinct indices below the chunk volume.
pub proof fn lemma_local_index(lx: int, ly: int, lz: int)
    requires
        is_local(lx),
        is_local(ly),
        is_local(lz),
    ensures
        0 <= local_index(lx, ly, lz) < 4096,
        local_index(lx, ly, lz) % 16 == lx,
        (local_index(lx, ly, lz) / 16) % 16 == lz,
        local_index(lx, ly, lz) / 256 == ly,
{
}

/// Floor division of a world coordinate by the chunk edge.
pub fn chunk_coord(v: i32) -> (c: i32)
    ensures
        c == chunk_of(v as int),
        -134217728 <= c <= 134217727,
{
    let q: i32 = v / 16;
    if v % 16 < 0 {
        q - 1
    } else {
        q
    }
}

/// Local coordinate of a world coordinate inside its chunk.
pub fn local_coord(v: i32) -> (l: i32)
    ensures
        l == local_of(v as int),
        0 <= l < 16,
{
    let r: i32 = v % 16;
    if r < 0 {
        r + 16
    } else {
        r
    }
}

} // verus!
