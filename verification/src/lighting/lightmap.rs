//! Packed per-voxel light storage of one chunk.
//!
//! Every voxel owns one 16-bit word that holds four independent 4-bit
//! channels: red in bits 0..4, green in 4..8, blue in 8..12, sky in 12..16.

use vstd::prelude::*;
use crate::voxels::coords::{is_local, local_index};

verus! {

/// Number of light channels.
pub const CHANNELS: i32 = 4;

/// Largest light level a channel can hold.
pub const MAX_LIGHT: u8 = 15;

/// Weight of channel `channel` inside a packed word: `16^channel`.
pub open spec fn channel_weight(channel: int) -> int {
    if channel == 0 {
        1
    } else if channel == 1 {
        16
    } else if channel == 2 {
        256
    } else {
        4096
    }
}

/// Level of channel `channel` stored in the packed word `packed`.
pub open spec fn channel_level(packed: u16, channel: int) -> int {
    (packed as int / channel_weight(channel)) % 16
}

/// The packed word `packed` with channel `channel` replaced by `level`.
pub open spec fn with_channel(packed: u16, channel: int, level: int) -> u16 {
    (packed as int + scaled(level - channel_level(packed, channel), channel)) as u16
}

/// `amount` multiplied by the weight of `channel`.
pub open spec fn scaled(amount: int, channel: int) -> int {
    if channel == 0 {
        amount
    } else if channel == 1 {
        16 * amount
    } else if channel == 2 {
        256 * amount
    } else {
        4096 * amount
    }
}

/// Whether `channel` names one of the four channels.
pub open spec fn is_channel(channel: int) -> bool {
    0 <= channel < 4
}

/// Whether `level` is a storable light level.
pub open spec fn is_level(level: int) -> bool {
    0 <= level <= 15
}

/// A sixteen-bit word is the weighted sum of its four channel levels.
pub proof fn lemma_split_word(packed: u16)
    ensures
        packed as int == channel_level(packed, 0) + 16 * channel_level(packed, 1) + 256
            * channel_level(packed, 2) + 4096 * channel_level(packed, 3),
        is_level(channel_level(packed, 0)),
        is_level(channel_level(packed, 1)),
        is_level(channel_level(packed, 2)),
        is_level(channel_level(packed, 3)),
{
    let p = packed as int;
    assert(p == p % 16 + 16 * (p / 16));
    assert(p / 16 == (p / 16) % 16 + 16 * (p / 256));
    assert(p / 256 == (p / 256) % 16 + 16 * (p / 4096));
    assert(p / 4096 == (p / 4096) % 16);
}

/// The weighted sum of four levels is a sixteen-bit word with those levels.
pub proof fn lemma_join_word(r: int, g: int, b: int, s: int)
    requires
        is_level(r),
        is_level(g),
        is_level(b),
        is_level(s),
    ensures
        0 <= r + 16 * g + 256 * b + 4096 * s <= 0xFFFF,
        channel_level((r + 16 * g + 256 * b + 4096 * s) as u16, 0) == r,
        channel_level((r + 16 * g + 256 * b + 4096 * s) as u16, 1) == g,
        channel_level((r + 16 * g + 256 * b + 4096 * s) as u16, 2) == b,
        channel_level((r + 16 * g + 256 * b + 4096 * s) as u16, 3) == s,
{
    let q = r + 16 * g + 256 * b + 4096 * s;
    assert(q % 16 == r);
    assert(q / 16 == g + 16 * b + 256 * s);
    assert(q / 256 == b + 16 * s);
    assert(q / 4096 == s);
}

/// Replacing a channel stores the new level there, leaves the other three
/// channels alone and stays within sixteen bits.
pub proof fn lemma_with_channel(packed: u16, channel: int, level: int, other: int)
    requires
        is_channel(channel),
        is_channel(other),
        is_level(level),
    ensures
        is_level(channel_level(packed, other)),
        0 <= packed as int + scaled(level - channel_level(packed, channel), channel) <= 0xFFFF,
        channel_level(with_channel(packed, channel, level), other) == if other == channel {
            level
        } else {
            channel_level(packed, other)
        },
{
    lemma_split_word(packed);
    let r = channel_level(packed, 0);
    let g = channel_level(packed, 1);
    let b = channel_level(packed, 2);
    let s = channel_level(packed, 3);
    let q = packed as int + scaled(level - channel_level(packed, channel), channel);
    if channel == 0 {
        lemma_join_word(level, g, b, s);
        assert(q == level + 16 * g + 256 * b + 4096 * s);
    } else if channel == 1 {
        lemma_join_word(r, level, b, s);
        assert(q == r + 16 * level + 256 * b + 4096 * s);
    } else if channel == 2 {
        lemma_join_word(r, g, level, s);
        assert(q == r + 16 * g + 256 * level + 4096 * s);
    } else {
        lemma_join_word(r, g, b, level);
        assert(q == r + 16 * g + 256 * b + 4096 * level);
    }
}

/// A word is determined by its four channel levels.
pub proof fn lemma_channels_determine(a: u16, b: u16)
    requires
        channel_level(a, 0) == channel_level(b, 0),
        channel_level(a, 1) == channel_level(b, 1),
        channel_level(a, 2) == channel_level(b, 2),
        channel_level(a, 3) == channel_level(b, 3),
    ensures
        a == b,
{
    lemma_split_word(a);
    lemma_split_word(b);
}

/// Light levels of the 16x16x16 voxels of one chunk.
#[derive(Debug, Clone)]
pub struct Lightmap {
    pub map: Vec<u16>,
}

impl View for Lightmap {
    type V = Seq<u16>;

    open spec fn view(&self) -> Seq<u16> {
        self.map@
    }
}

impl Lightmap {
    /// A lightmap holds exactly one word per voxel of a chunk.
    pub open spec fn wf(&self) -> bool {
        self.map@.len() == 4096
    }

    /// Level of `channel` at local position (x, y, z).
    pub open spec fn level(&self, x: int, y: int, z: int, channel: int) -> int {
        channel_level(self.map@[local_index(x, y, z)], channel)
    }

    /// A lightmap with every channel of every voxel at zero.
    pub fn new() -> (r: Self)
        ensures
            r.wf(),
            forall|i: int| 0 <= i < 4096 ==> r@[i] == 0,
    {
        let mut map: Vec<u16> = Vec::with_capacity(4096);
        let mut i: usize = 0;
        while i < 4096
            invariant
                i <= 4096,
                map@.len() == i,
                forall|k: int| 0 <= k < i ==> map@[k] == 0,
            decreases 4096 - i,
        {
            map.push(0);
            i = i + 1;
        }
        Lightmap { map }
    }

    /// Index of local position (x, y, z) in the word array.
    fn index_of(x: i32, y: i32, z: i32) -> (i: usize)
        requires
            is_local(x as int),
            is_local(y as int),
            is_local(z as int),
        ensures
            i == local_index(x as int, y as int, z as int),
            i < 4096,
    {
        (y * 256 + z * 16 + x) as usize
    }

    /// Reads one channel at a local position.
    pub fn get(&self, x: i32, y: i32, z: i32, channel: i32) -> (r: u8)
        requires
            self.wf(),
            is_local(x as int),
            is_local(y as int),
            is_local(z as int),
            is_channel(channel as int),
        ensures
            r == self.level(x as int, y as int, z as int, channel as int),
            r <= 15,
    {
        let index = Self::index_of(x, y, z);
        let p: u16 = self.map[index];
        if channel == 0 {
            assert(p & 0xF == p % 16) by (bit_vector);
            (p & 0xF) as u8
        } else if channel == 1 {
            assert((p >> 4) & 0xF == (p / 16) % 16) by (bit_vector);
            ((p >> 4) & 0xF) as u8
        } else if channel == 2 {
            assert((p >> 8) & 0xF == (p / 256) % 16) by (bit_vector);
            ((p >> 8) & 0xF) as u8
        } else {
            assert((p >> 12) & 0xF == (p / 4096) % 16) by (bit_vector);
            ((p >> 12) & 0xF) as u8
        }
    }

    /// Reads the red channel at a local position.
    pub fn get_r(&self, x: i32, y: i32, z: i32) -> (r: u8)
        requires
            self.wf(),
            is_local(x as int),
            is_local(y as int),
            is_local(z as int),
        ensures
            r == self.level(x as int, y as int, z as int, 0),
            r <= 15,
    {
        self.get(x, y, z, 0)
    }

    /// Reads the green channel at a local position.
    pub fn get_g(&self, x: i32, y: i32, z: i32) -> (r: u8)
        requires
            self.wf(),
            is_local(x as int),
            is_local(y as int),
            is_local(z as int),
        ensures
            r == self.level(x as int, y as int, z as int, 1),
            r <= 15,
    {
        self.get(x, y, z, 1)
    }

    /// Reads the blue channel at a local position.
    pub fn get_b(&self, x: i32, y: i32, z: i32) -> (r: u8)
        requires
            self.wf(),
            is_local(x as int),
            is_local(y as int),
            is_local(z as int),
        ensures
            r == self.level(x as int, y as int, z as int, 2),
            r <= 15,
    {
        self.get(x, y, z, 2)
    }

    /// Reads the sky channel at a local position.
    pub fn get_s(&self, x: i32, y: i32, z: i32) -> (r: u8)
        requires
            self.wf(),
            is_local(x as int),
            is_local(y as int),
            is_local(z as int),
        ensures
            r == self.level(x as int, y as int, z as int, 3),
            r <= 15,
    {
        self.get(x, y, z, 3)
    }

    /// Stores `value` in one channel at a local position; the other three
    /// channels of that voxel and all other voxels keep their levels.
    pub fn set(&mut self, x: i32, y: i32, z: i32, channel: i32, value: i32)
        requires
            old(self).wf(),
            is_local(x as int),
            is_local(y as int),
            is_local(z as int),
            is_channel(channel as int),
            is_level(value as int),
        ensures
            final(self)@ == old(self)@.update(
                local_index(x as int, y as int, z as int),
                with_channel(
                    old(self)@[local_index(x as int, y as int, z as int)],
                    channel as int,
                    value as int,
                ),
            ),
            final(self).wf(),
    {
        let index = Self::index_of(x, y, z);
        let p: u16 = self.map[index];
        let v: u16 = value as u16;
        proof {
            lemma_with_channel(p, channel as int, value as int, channel as int);
        }
        let q: u16 = if channel == 0 {
            assert((p & 0xFFF0) | v == p - (p % 16) + v) by (bit_vector)
                requires
                    v <= 15,
            ;
            (p & 0xFFF0) | v
        } else if channel == 1 {
            assert((p & 0xFF0F) | (v << 4) == p - ((p / 16) % 16) * 16 + v * 16) by (bit_vector)
                requires
                    v <= 15,
            ;
            (p & 0xFF0F) | (v << 4)
        } else if channel == 2 {
            assert((p & 0xF0FF) | (v << 8) == p - ((p / 256) % 16) * 256 + v * 256)
                by (bit_vector)
                requires
                    v <= 15,
            ;
            (p & 0xF0FF) | (v << 8)
        } else {
            assert((p & 0x0FFF) | (v << 12) == p - ((p / 4096) % 16) * 4096 + v * 4096)
                by (bit_vector)
                requires
                    v <= 15,
            ;
            (p & 0x0FFF) | (v << 12)
        };
        self.map[index] = q;
    }

    /// Stores `value` in the red channel at a local position.
    pub fn set_r(&mut self, x: i32, y: i32, z: i32, value: i32)
        requires
            old(self).wf(),
            is_local(x as int),
            is_local(y as int),
            is_local(z as int),
            is_level(value as int),
        ensures
            final(self)@ == old(self)@.update(
                local_index(x as int, y as int, z as int),
                with_channel(old(self)@[local_index(x as int, y as int, z as int)], 0,
                    value as int),
            ),
            final(self).wf(),
    {
        self.set(x, y, z, 0, value)
    }

    /// Stores `value` in the green channel at a local position.
    pub fn set_g(&mut self, x: i32, y: i32, z: i32, value: i32)
        requires
            old(self).wf(),
            is_local(x as int),
            is_local(y as int),
            is_local(z as int),
            is_level(value as int),
        ensures
            final(self)@ == old(self)@.update(
                local_index(x as int, y as int, z as int),
                with_channel(old(self)@[local_index(x as int, y as int, z as int)], 1,
                    value as int),
            ),
            final(self).wf(),
    {
        self.set(x, y, z, 1, value)
    }

    /// Stores `value` in the blue channel at a local position.
    pub fn set_b(&mut self, x: i32, y: i32, z: i32, value: i32)
        requires
            old(self).wf(),
            is_local(x as int),
            is_local(y as int),
            is_local(z as int),
            is_level(value as int),
        ensures
            final(self)@ == old(self)@.update(
                local_index(x as int, y as int, z as int),
                with_channel(old(self)@[local_index(x as int, y as int, z as int)], 2,
                    value as int),
            ),
            final(self).wf(),
    {
        self.set(x, y, z, 2, value)
    }

    /// Stores `value` in the sky channel at a local position.
    pub fn set_s(&mut self, x: i32, y: i32, z: i32, value: i32)
        requires
            old(self).wf(),
            is_local(x as int),
            is_local(y as int),
            is_local(z as int),
            is_level(value as int),
        ensures
            final(self)@ == old(self)@.update(
                local_index(x as int, y as int, z as int),
                with_channel(old(self)@[local_index(x as int, y as int, z as int)], 3,
                    value as int),
            ),
            final(self).wf(),
    {
        self.set(x, y, z, 3, value)
    }
}

} // verus!
