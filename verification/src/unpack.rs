//! The chunk/tile state machine that walks a level's chunks in serpentine
//! order and emits raw DXT blocks.

use vstd::prelude::*;
use crate::{Error, Tables};
use crate::codec::{Codec, Huffman, spec_decode};

verus! {

/// Blocks per chunk edge: chunks tile the level in 2-by-2 block groups.
pub const TRUNK_SIZE: usize = 2;

/// How many distinct tiles the chunk with 3-bit selector `i` holds.
pub open spec fn spec_count_tiles(i: int) -> nat {
    if i == 0 {
        1
    } else if i == 1 || i == 2 {
        2
    } else if i == 7 {
        4
    } else {
        3
    }
}

/// The tile each of the four block positions (row-major) belongs to, for
/// the chunk with 3-bit selector `i`.
pub open spec fn spec_tile(i: int, pos: int) -> nat {
    if i == 0 {
        0
    } else if i == 1 {
        if pos >= 2 {
            1
        } else {
            0
        }
    } else if i == 2 {
        if pos == 1 || pos == 3 {
            1
        } else {
            0
        }
    } else if i == 3 {
        if pos == 2 {
            1
        } else if pos == 3 {
            2
        } else {
            0
        }
    } else if i == 4 {
        if pos == 0 {
            1
        } else if pos == 1 {
            2
        } else {
            0
        }
    } else if i == 5 {
        if pos == 1 {
            1
        } else if pos == 3 {
            2
        } else {
            0
        }
    } else if i == 6 {
        if pos == 0 {
            1
        } else if pos == 2 {
            2
        } else {
            0
        }
    } else {
        pos as nat
    }
}

pub fn count_tiles(i: usize) -> (r: usize)
    requires
        i < 8,
    ensures
        r == spec_count_tiles(i as int),
        1 <= r <= 4,
{
    match i {
        0 => 1,
        1 => 2,
        2 => 2,
        3 => 3,
        4 => 3,
        5 => 3,
        6 => 3,
        _ => 4,
    }
}

pub fn tiles(i: usize) -> (r: [usize; 4])
    requires
        i < 8,
    ensures
        forall|p: int| 0 <= p < 4 ==> r@[p] == spec_tile(i as int, p),
        forall|p: int| 0 <= p < 4 ==> r@[p] < spec_count_tiles(i as int),
{
    match i {
        0 => [0, 0, 0, 0],
        1 => [0, 0, 1, 1],
        2 => [0, 1, 0, 1],
        3 => [0, 0, 1, 2],
        4 => [1, 2, 0, 0],
        5 => [0, 1, 0, 2],
        6 => [1, 0, 2, 0],
        _ => [0, 1, 2, 3],
    }
}

/// One step of the tile-structure register: when the register holds the
/// sentinel 1, refill it from the chunk-encoding table with bit 9 set;
/// the low 3 bits select the chunk's tile structure and shift out.
pub open spec fn spec_next_tile(enc: Seq<u8>, bytes: Seq<u8>, idx: nat, tile_bits: u32) -> Option<
    (u32, u32, nat),
> {
    if tile_bits == 1 {
        match spec_decode(enc, bytes, idx) {
            Option::None => None,
            Option::Some((sym, i1)) => {
                let filled = (sym | 512) as u32;
                Some(((filled & 7) as u32, (filled >> 3) as u32, i1))
            },
        }
    } else {
        Some(((tile_bits & 7) as u32, (tile_bits >> 3) as u32, idx))
    }
}

/// Advance the tile-structure register and hand back the tile count and
/// the block-position-to-tile map for the next chunk.
pub fn next_tile_idx(codec: &mut Codec, encoding: &Huffman, tile_bits: &mut u32) -> (r: Result<
    (usize, [usize; 4]),
    Error,
>)
    requires
        encoding.wf(),
        old(codec).wf(),
    ensures
        final(codec).wf(),
        final(codec).bytes() == old(codec).bytes(),
        match r {
            Ok(ct) => {
                &&& spec_next_tile(
                    encoding.depths(),
                    old(codec).bytes(),
                    old(codec).bit_index(),
                    *old(tile_bits),
                ) matches Some((ti, tb2, i2)) && *final(tile_bits) == tb2
                    && final(codec).bit_index() == i2 && ti < 8
                    && ct.0 == spec_count_tiles(ti as int)
                    && (forall|p: int| 0 <= p < 4 ==> ct.1@[p] == spec_tile(ti as int, p))
                &&& 1 <= ct.0 <= 4
                &&& forall|p: int| 0 <= p < 4 ==> ct.1@[p] < ct.0
            },
            Err(_) => {
                &&& spec_next_tile(
                    encoding.depths(),
                    old(codec).bytes(),
                    old(codec).bit_index(),
                    *old(tile_bits),
                ) is None
                &&& final(codec).bit_index() == old(codec).bit_index()
                &&& *final(tile_bits) == *old(tile_bits)
            },
        },
{
    if *tile_bits == 1 {
        let sym = match encoding.next(codec) {
            Ok(s) => s,
            Err(e) => { return Err(e) },
        };
        *tile_bits = sym | 512;
    }
    let ti = (*tile_bits & 7) as usize;
    proof {
        assert(*tile_bits & 7 < 8) by (bit_vector);
    }
    *tile_bits = *tile_bits >> 3;
    Ok((count_tiles(ti), tiles(ti)))
}

/// A DXT1 block: one packed RGB565 endpoint pair and sixteen 2-bit
/// selectors, eight bytes in all.
#[derive(Debug, Default, Clone, Copy)]
pub struct Dxt1 {
    pub color_endpoint: (u16, u16),
    pub color_selector: [u8; 4],
}

/// A DXT5 block: an alpha endpoint pair with 3-bit selectors, then a DXT1
/// color half, sixteen bytes in all.
#[derive(Debug, Default, Clone, Copy)]
pub struct Dxt5 {
    pub alpha_endpoint: (u8, u8),
    pub alpha_selector: [u8; 6],
    pub color_endpoint: (u16, u16),
    pub color_selector: [u8; 4],
}

/// A DXT5A block: the alpha half alone, eight bytes.
#[derive(Debug, Default, Clone, Copy)]
pub struct Dxt5A {
    pub alpha_endpoint: (u8, u8),
    pub alpha_selector: [u8; 6],
}

/// A DXN block: two independent alpha halves, sixteen bytes.
#[derive(Debug, Default, Clone, Copy)]
pub struct Dxn {
    pub alpha0_endpoint: (u8, u8),
    pub alpha0_selector: [u8; 6],
    pub alpha1_endpoint: (u8, u8),
    pub alpha1_selector: [u8; 6],
}

/// The two bytes of a 16-bit word, least significant first.
fn le16(v: u16) -> (r: (u8, u8))
    ensures
        r.0 == v % 256,
        r.1 == v / 256,
{
    proof {
        assert(v & 0xff == v % 256 && (v >> 8) == v / 256) by (bit_vector);
    }
    ((v & 0xff) as u8, (v >> 8) as u8)
}

impl Dxt1 {
    pub const BLOCK_SIZE: usize = 8;

    /// The block's wire form: both endpoint words little-endian, then the
    /// selector bytes.
    pub fn to_bytes(&self) -> (r: [u8; 8])
        ensures
            r@ == seq![
                (self.color_endpoint.0 % 256) as u8,
                (self.color_endpoint.0 / 256) as u8,
                (self.color_endpoint.1 % 256) as u8,
                (self.color_endpoint.1 / 256) as u8,
                self.color_selector@[0],
                self.color_selector@[1],
                self.color_selector@[2],
                self.color_selector@[3],
            ],
    {
        let (e0l, e0h) = le16(self.color_endpoint.0);
        let (e1l, e1h) = le16(self.color_endpoint.1);
        let r = [
            e0l,
            e0h,
            e1l,
            e1h,
            self.color_selector[0],
            self.color_selector[1],
            self.color_selector[2],
            self.color_selector[3],
        ];
        proof {
            assert(r@ =~= seq![
                (self.color_endpoint.0 % 256) as u8,
                (self.color_endpoint.0 / 256) as u8,
                (self.color_endpoint.1 % 256) as u8,
                (self.color_endpoint.1 / 256) as u8,
                self.color_selector@[0],
                self.color_selector@[1],
                self.color_selector@[2],
                self.color_selector@[3],
            ]);
        }
        r
    }
}

impl Dxt5 {
    pub const BLOCK_SIZE: usize = 16;

    /// The block's wire form: the alpha endpoints and selectors, then the
    /// color half as in DXT1.
    pub fn to_bytes(&self) -> (r: [u8; 16])
        ensures
            r@ == seq![
                self.alpha_endpoint.0,
                self.alpha_endpoint.1,
                self.alpha_selector@[0],
                self.alpha_selector@[1],
                self.alpha_selector@[2],
                self.alpha_selector@[3],
                self.alpha_selector@[4],
                self.alpha_selector@[5],
                (self.color_endpoint.0 % 256) as u8,
                (self.color_endpoint.0 / 256) as u8,
                (self.color_endpoint.1 % 256) as u8,
                (self.color_endpoint.1 / 256) as u8,
                self.color_selector@[0],
                self.color_selector@[1],
                self.color_selector@[2],
                self.color_selector@[3],
            ],
    {
        let (e0l, e0h) = le16(self.color_endpoint.0);
        let (e1l, e1h) = le16(self.color_endpoint.1);
        let r = [
            self.alpha_endpoint.0,
            self.alpha_endpoint.1,
            self.alpha_selector[0],
            self.alpha_selector[1],
            self.alpha_selector[2],
            self.alpha_selector[3],
            self.alpha_selector[4],
            self.alpha_selector[5],
            e0l,
            e0h,
            e1l,
            e1h,
            self.color_selector[0],
            self.color_selector[1],
            self.color_selector[2],
            self.color_selector[3],
        ];
        proof {
            assert(r@ =~= seq![
                self.alpha_endpoint.0,
                self.alpha_endpoint.1,
                self.alpha_selector@[0],
                self.alpha_selector@[1],
                self.alpha_selector@[2],
                self.alpha_selector@[3],
                self.alpha_selector@[4],
                self.alpha_selector@[5],
                (self.color_endpoint.0 % 256) as u8,
                (self.color_endpoint.0 / 256) as u8,
                (self.color_endpoint.1 % 256) as u8,
                (self.color_endpoint.1 / 256) as u8,
                self.color_selector@[0],
                self.color_selector@[1],
                self.color_selector@[2],
                self.color_selector@[3],
            ]);
        }
        r
    }
}

impl Dxt5A {
    pub const BLOCK_SIZE: usize = 8;

    /// The block's wire form: the alpha endpoints, then the selectors.
    pub fn to_bytes(&self) -> (r: [u8; 8])
        ensures
            r@ == seq![
                self.alpha_endpoint.0,
                self.alpha_endpoint.1,
                self.alpha_selector@[0],
                self.alpha_selector@[1],
                self.alpha_selector@[2],
                self.alpha_selector@[3],
                self.alpha_selector@[4],
                self.alpha_selector@[5],
            ],
    {
        let r = [
            self.alpha_endpoint.0,
            self.alpha_endpoint.1,
            self.alpha_selector[0],
            self.alpha_selector[1],
            self.alpha_selector[2],
            self.alpha_selector[3],
            self.alpha_selector[4],
            self.alpha_selector[5],
        ];
        proof {
            assert(r@ =~= seq![
                self.alpha_endpoint.0,
                self.alpha_endpoint.1,
                self.alpha_selector@[0],
                self.alpha_selector@[1],
                self.alpha_selector@[2],
                self.alpha_selector@[3],
                self.alpha_selector@[4],
                self.alpha_selector@[5],
            ]);
        }
        r
    }
}

impl Dxn {
    pub const BLOCK_SIZE: usize = 16;

    /// The block's wire form: the first alpha half, then the second.
    pub fn to_bytes(&self) -> (r: [u8; 16])
        ensures
            r@ == seq![
                self.alpha0_endpoint.0,
                self.alpha0_endpoint.1,
                self.alpha0_selector@[0],
                self.alpha0_selector@[1],
                self.alpha0_selector@[2],
                self.alpha0_selector@[3],
                self.alpha0_selector@[4],
                self.alpha0_selector@[5],
                self.alpha1_endpoint.0,
                self.alpha1_endpoint.1,
                self.alpha1_selector@[0],
                self.alpha1_selector@[1],
                self.alpha1_selector@[2],
                self.alpha1_selector@[3],
                self.alpha1_selector@[4],
                self.alpha1_selector@[5],
            ],
    {
        let r = [
            self.alpha0_endpoint.0,
            self.alpha0_endpoint.1,
            self.alpha0_selector[0],
            self.alpha0_selector[1],
            self.alpha0_selector[2],
            self.alpha0_selector[3],
            self.alpha0_selector[4],
            self.alpha0_selector[5],
            self.alpha1_endpoint.0,
            self.alpha1_endpoint.1,
            self.alpha1_selector[0],
            self.alpha1_selector[1],
            self.alpha1_selector[2],
            self.alpha1_selector[3],
            self.alpha1_selector[4],
            self.alpha1_selector[5],
        ];
        proof {
            assert(r@ =~= seq![
                self.alpha0_endpoint.0,
                self.alpha0_endpoint.1,
                self.alpha0_selector@[0],
                self.alpha0_selector@[1],
                self.alpha0_selector@[2],
                self.alpha0_selector@[3],
                self.alpha0_selector@[4],
                self.alpha0_selector@[5],
                self.alpha1_endpoint.0,
                self.alpha1_endpoint.1,
                self.alpha1_selector@[0],
                self.alpha1_selector@[1],
                self.alpha1_selector@[2],
                self.alpha1_selector@[3],
                self.alpha1_selector@[4],
                self.alpha1_selector@[5],
            ]);
        }
        r
    }
}


/// The block family a level decode emits.
#[derive(Debug, Clone, Copy, PartialEq, Eq, Structural)]
pub enum BlockFormat {
    Dxt1,
    Dxt5,
    Dxt5A,
    Dxn,
}

/// Bytes per block of the family.
pub open spec fn spec_block_bytes(fmt: BlockFormat) -> nat {
    match fmt {
        BlockFormat::Dxt1 => 8,
        BlockFormat::Dxt5 => 16,
        BlockFormat::Dxt5A => 8,
        BlockFormat::Dxn => 16,
    }
}

/// Blocks across, from a pixel extent: four pixels per block, rounded up.
pub open spec fn spec_blocks(extent: u16) -> int {
    (extent as int + 3) / 4
}

/// The byte length of one decoded level: all blocks of all faces.
pub open spec fn spec_level_size(width: u16, height: u16, face: u8, fmt: BlockFormat) -> int {
    spec_blocks(width) * spec_blocks(height) * spec_block_bytes(fmt) * (face as int)
}

/// The level's output buffer must be addressable.
pub open spec fn spec_level_fits(width: u16, height: u16, face: u8) -> bool {
    spec_blocks(width) * spec_blocks(height) * 16 * (face as int) <= usize::MAX as int
}

/// A block coordinate doubled from a chunk coordinate stays inside the
/// level when it is not clipped by an odd block extent.
proof fn lemma_block_in_range(block: int, xy: int, p2: int)
    requires
        0 < block,
        0 <= p2 < 2,
        0 <= xy < (block + 1) / 2,
        !(block % 2 == 1 && xy == (block + 1) / 2 - 1 && p2 == 1),
    ensures
        2 * xy + p2 < block,
{
    let c = (block + 1) / 2;
    vstd::arithmetic::div_mod::lemma_fundamental_div_mod(block + 1, 2);
    vstd::arithmetic::div_mod::lemma_fundamental_div_mod(block, 2);
}


/// The serial state a level decode threads through every chunk: the bit
/// cursor, the tile-structure register, and the six palette cursors.
pub ghost struct UnpackState {
    pub idx: nat,
    pub tile_bits: u32,
    pub color_endpoint: nat,
    pub color_selector: nat,
    pub alpha0_endpoint: nat,
    pub alpha0_selector: nat,
    pub alpha1_endpoint: nat,
    pub alpha1_selector: nat,
}

impl UnpackState {
    /// The state a level decode starts from: bit cursor at `idx`, the
    /// register at its sentinel, all palette cursors at zero.
    pub open spec fn start(idx: nat) -> UnpackState {
        UnpackState {
            idx: idx,
            tile_bits: 1u32,
            color_endpoint: 0,
            color_selector: 0,
            alpha0_endpoint: 0,
            alpha0_selector: 0,
            alpha1_endpoint: 0,
            alpha1_selector: 0,
        }
    }
}

/// `n` consecutive palette reads: each decodes a delta and advances the
/// cursor by it modulo the palette length.
pub open spec fn spec_n_nexts(
    delta: Seq<u8>,
    len: nat,
    bytes: Seq<u8>,
    idx: nat,
    cur: nat,
    n: nat,
) -> Option<(nat, nat)>
    decreases n,
{
    if n == 0 {
        Some((idx, cur))
    } else {
        match spec_decode(delta, bytes, idx) {
            Option::None => None,
            Option::Some((sym, i2)) => {
                if len == 0 {
                    None
                } else {
                    spec_n_nexts(
                        delta,
                        len,
                        bytes,
                        i2,
                        ((cur + sym) % (len as int)) as nat,
                        (n - 1) as nat,
                    )
                }
            },
        }
    }
}

/// `n` interleaved pairs of palette reads, as the block positions of a
/// chunk make them: one from the first table, then one from the second.
pub open spec fn spec_sel_pairs(
    d1: Seq<u8>,
    l1: nat,
    d2: Seq<u8>,
    l2: nat,
    bytes: Seq<u8>,
    idx: nat,
    cur1: nat,
    cur2: nat,
    n: nat,
) -> Option<(nat, nat, nat)>
    decreases n,
{
    if n == 0 {
        Some((idx, cur1, cur2))
    } else {
        match spec_decode(d1, bytes, idx) {
            Option::None => None,
            Option::Some((s1, i1)) => {
                if l1 == 0 {
                    None
                } else {
                    match spec_decode(d2, bytes, i1) {
                        Option::None => None,
                        Option::Some((s2, i2)) => {
                            if l2 == 0 {
                                None
                            } else {
                                spec_sel_pairs(
                                    d1,
                                    l1,
                                    d2,
                                    l2,
                                    bytes,
                                    i2,
                                    ((cur1 + s1) % (l1 as int)) as nat,
                                    ((cur2 + s2) % (l2 as int)) as nat,
                                    (n - 1) as nat,
                                )
                            }
                        },
                    }
                }
            },
        }
    }
}

/// What one chunk consumes from the stream and does to the serial state,
/// for each block family. The write positions play no part: clipping
/// suppresses writes, never reads.
pub open spec fn spec_chunk_step(
    t: Tables,
    bytes: Seq<u8>,
    st: UnpackState,
    fmt: BlockFormat,
) -> Option<UnpackState> {
    match spec_next_tile(t.chunk_encoding.depths(), bytes, st.idx, st.tile_bits) {
        Option::None => None,
        Option::Some((ti, tb2, idx1)) => {
            let count = spec_count_tiles(ti as int);
            match fmt {
                BlockFormat::Dxt1 => {
                    match spec_n_nexts(
                        t.color_endpoint.delta.depths(),
                        t.color_endpoint.entries@.len(),
                        bytes,
                        idx1,
                        st.color_endpoint,
                        count,
                    ) {
                        Option::None => None,
                        Option::Some((idx2, ce2)) => {
                            match spec_n_nexts(
                                t.color_selector.delta.depths(),
                                t.color_selector.entries@.len(),
                                bytes,
                                idx2,
                                st.color_selector,
                                4,
                            ) {
                                Option::None => None,
                                Option::Some((idx3, cs2)) => Some(
                                    UnpackState {
                                        idx: idx3,
                                        tile_bits: tb2,
                                        color_endpoint: ce2,
                                        color_selector: cs2,
                                        ..st
                                    },
                                ),
                            }
                        },
                    }
                },
                BlockFormat::Dxt5 => {
                    match spec_n_nexts(
                        t.alpha_endpoint.delta.depths(),
                        t.alpha_endpoint.entries@.len(),
                        bytes,
                        idx1,
                        st.alpha0_endpoint,
                        count,
                    ) {
                        Option::None => None,
                        Option::Some((idx2, ae2)) => {
                            match spec_n_nexts(
                                t.color_endpoint.delta.depths(),
                                t.color_endpoint.entries@.len(),
                                bytes,
                                idx2,
                                st.color_endpoint,
                                count,
                            ) {
                                Option::None => None,
                                Option::Some((idx3, ce2)) => {
                                    match spec_sel_pairs(
                                        t.alpha_selector.delta.depths(),
                                        t.alpha_selector.entries@.len(),
                                        t.color_selector.delta.depths(),
                                        t.color_selector.entries@.len(),
                                        bytes,
                                        idx3,
                                        st.alpha0_selector,
                                        st.color_selector,
                                        4,
                                    ) {
                                        Option::None => None,
                                        Option::Some((idx4, as2, cs2)) => Some(
                                            UnpackState {
                                                idx: idx4,
                                                tile_bits: tb2,
                                                color_endpoint: ce2,
                                                color_selector: cs2,
                                                alpha0_endpoint: ae2,
                                                alpha0_selector: as2,
                                                ..st
                                            },
                                        ),
                                    }
                                },
                            }
                        },
                    }
                },
                BlockFormat::Dxt5A => {
                    match spec_n_nexts(
                        t.alpha_endpoint.delta.depths(),
                        t.alpha_endpoint.entries@.len(),
                        bytes,
                        idx1,
                        st.alpha0_endpoint,
                        count,
                    ) {
                        Option::None => None,
                        Option::Some((idx2, ae2)) => {
                            match spec_n_nexts(
                                t.alpha_selector.delta.depths(),
                                t.alpha_selector.entries@.len(),
                                bytes,
                                idx2,
                                st.alpha0_selector,
                                4,
                            ) {
                                Option::None => None,
                                Option::Some((idx3, as2)) => Some(
                                    UnpackState {
                                        idx: idx3,
                                        tile_bits: tb2,
                                        alpha0_endpoint: ae2,
                                        alpha0_selector: as2,
                                        ..st
                                    },
                                ),
                            }
                        },
                    }
                },
                BlockFormat::Dxn => {
                    match spec_n_nexts(
                        t.alpha_endpoint.delta.depths(),
                        t.alpha_endpoint.entries@.len(),
                        bytes,
                        idx1,
                        st.alpha0_endpoint,
                        count,
                    ) {
                        Option::None => None,
                        Option::Some((idx2, a0e2)) => {
                            match spec_n_nexts(
                                t.alpha_endpoint.delta.depths(),
                                t.alpha_endpoint.entries@.len(),
                                bytes,
                                idx2,
                                st.alpha1_endpoint,
                                count,
                            ) {
                                Option::None => None,
                                Option::Some((idx3, a1e2)) => {
                                    match spec_sel_pairs(
                                        t.alpha_selector.delta.depths(),
                                        t.alpha_selector.entries@.len(),
                                        t.alpha_selector.delta.depths(),
                                        t.alpha_selector.entries@.len(),
                                        bytes,
                                        idx3,
                                        st.alpha0_selector,
                                        st.alpha1_selector,
                                        4,
                                    ) {
                                        Option::None => None,
                                        Option::Some((idx4, a0s2, a1s2)) => Some(
                                            UnpackState {
                                                idx: idx4,
                                                tile_bits: tb2,
                                                alpha0_endpoint: a0e2,
                                                alpha0_selector: a0s2,
                                                alpha1_endpoint: a1e2,
                                                alpha1_selector: a1s2,
                                                ..st
                                            },
                                        ),
                                    }
                                },
                            }
                        },
                    }
                },
            }
        },
    }
}

/// The serial state after `n` chunks. The serpentine order fixes where
/// blocks land, but what the stream yields depends only on how many
/// chunks have been decoded.
pub open spec fn spec_chunks(
    t: Tables,
    bytes: Seq<u8>,
    st: UnpackState,
    fmt: BlockFormat,
    n: nat,
) -> Option<UnpackState>
    decreases n,
{
    if n == 0 {
        Some(st)
    } else {
        match spec_chunk_step(t, bytes, st, fmt) {
            Option::None => None,
            Option::Some(st2) => spec_chunks(t, bytes, st2, fmt, (n - 1) as nat),
        }
    }
}

/// The byte offset of block `(x2, y2)` of face `f`, and its bound.
fn block_write_pos(f: usize, y2: usize, x2: usize, block_x: usize, block_y: usize, bs: usize) -> (
    pos: usize)
    requires
        x2 < block_x,
        y2 < block_y,
        block_x <= 16384,
        block_y <= 16384,
        bs <= 16,
        (f + 1) * (block_y * (block_x * bs)) <= usize::MAX,
    ensures
        pos == f * (block_y * (block_x * bs)) + y2 * (block_x * bs) + x2 * bs,
        pos + bs <= (f + 1) * (block_y * (block_x * bs)),
{
    proof {
        assert(block_x * bs <= 262144) by (nonlinear_arith)
            requires
                0 <= block_x <= 16384,
                0 <= bs <= 16,
        ;
        assert(block_y * (block_x * bs) <= (f + 1) * (block_y * (block_x * bs))) by (
        nonlinear_arith)
            requires
                f >= 0,
                block_y * (block_x * bs) >= 0,
        ;
    }
    let pitch = block_x * bs;
    proof {
        let fs = (block_y * pitch) as int;
        assert((block_y * pitch) <= (f + 1) * (block_y * pitch)) by (nonlinear_arith)
            requires
                f >= 0,
                block_y * pitch >= 0,
        ;
        assert(f * fs + fs <= ((f + 1) as int) * fs) by (nonlinear_arith);
        assert(y2 * pitch + x2 * bs + bs <= fs) by (nonlinear_arith)
            requires
                0 <= y2 < block_y,
                0 <= x2 < block_x,
                0 <= bs,
                pitch == block_x * bs,
                fs == block_y * pitch,
        ;
    }
    let face_size = block_y * pitch;
    let base = f * face_size;
    base + y2 * pitch + x2 * bs
}

/// The palette cursors and the tile-structure register a level decode
/// owns: explicit serial state, shared by every chunk of every face.
pub struct UnpackCursors {
    pub tile_bits: u32,
    pub color_endpoint: usize,
    pub color_selector: usize,
    pub alpha0_endpoint: usize,
    pub alpha0_selector: usize,
    pub alpha1_endpoint: usize,
    pub alpha1_selector: usize,
}

impl UnpackCursors {
    /// The serial state these cursors stand for, at bit position `idx`.
    pub open spec fn state(self, idx: nat) -> UnpackState {
        UnpackState {
            idx: idx,
            tile_bits: self.tile_bits,
            color_endpoint: self.color_endpoint as nat,
            color_selector: self.color_selector as nat,
            alpha0_endpoint: self.alpha0_endpoint as nat,
            alpha0_selector: self.alpha0_selector as nat,
            alpha1_endpoint: self.alpha1_endpoint as nat,
            alpha1_selector: self.alpha1_selector as nat,
        }
    }

    /// Every cursor sits inside its palette (or the palette is empty).
    pub open spec fn ok(self, t: Tables) -> bool {
        &&& self.color_endpoint < t.color_endpoint.entries@.len() || t.color_endpoint.entries@.len()
            == 0
        &&& self.color_selector < t.color_selector.entries@.len() || t.color_selector.entries@.len()
            == 0
        &&& self.alpha0_endpoint < t.alpha_endpoint.entries@.len()
            || t.alpha_endpoint.entries@.len() == 0
        &&& self.alpha0_selector < t.alpha_selector.entries@.len()
            || t.alpha_selector.entries@.len() == 0
        &&& self.alpha1_endpoint < t.alpha_endpoint.entries@.len()
            || t.alpha_endpoint.entries@.len() == 0
        &&& self.alpha1_selector < t.alpha_selector.entries@.len()
            || t.alpha_selector.entries@.len() == 0
    }

    /// Fresh state: register at its sentinel, every cursor at zero.
    pub fn new() -> (r: UnpackCursors)
        ensures
            forall|idx: nat| r.state(idx) == UnpackState::start(idx),
            forall|t: Tables| r.ok(t),
    {
        UnpackCursors {
            tile_bits: 1,
            color_endpoint: 0,
            color_selector: 0,
            alpha0_endpoint: 0,
            alpha0_selector: 0,
            alpha1_endpoint: 0,
            alpha1_selector: 0,
        }
    }
}


/// Extending a run of palette reads by one more successful read.
proof fn lemma_n_nexts_snoc(delta: Seq<u8>, len: nat, bytes: Seq<u8>, idx: nat, cur: nat, k: nat)
    requires
        len > 0,
        spec_n_nexts(delta, len, bytes, idx, cur, k) is Some,
        spec_decode(
            delta,
            bytes,
            spec_n_nexts(delta, len, bytes, idx, cur, k)->Some_0.0,
        ) is Some,
    ensures
        ({
            let (i1, c1) = spec_n_nexts(delta, len, bytes, idx, cur, k)->Some_0;
            let (sym, i2) = spec_decode(delta, bytes, i1)->Some_0;
            spec_n_nexts(delta, len, bytes, idx, cur, (k + 1) as nat) == Some(
                (i2, ((c1 + sym) % (len as int)) as nat),
            )
        }),
    decreases k,
{
    if k == 0 {
        let (sym, i2) = spec_decode(delta, bytes, idx)->Some_0;
        assert(spec_n_nexts(delta, len, bytes, idx, cur, 1) == spec_n_nexts(
            delta,
            len,
            bytes,
            i2,
            ((cur + sym) % (len as int)) as nat,
            0,
        ));
    } else {
        let (sym0, j1) = spec_decode(delta, bytes, idx)->Some_0;
        let cur1 = ((cur + sym0) % (len as int)) as nat;
        assert(spec_n_nexts(delta, len, bytes, idx, cur, k) == spec_n_nexts(
            delta,
            len,
            bytes,
            j1,
            cur1,
            (k - 1) as nat,
        ));
        lemma_n_nexts_snoc(delta, len, bytes, j1, cur1, (k - 1) as nat);
        assert(spec_n_nexts(delta, len, bytes, idx, cur, (k + 1) as nat) == spec_n_nexts(
            delta,
            len,
            bytes,
            j1,
            cur1,
            k,
        ));
    }
}

/// Extending a run of selector-pair reads by one more successful pair.
proof fn lemma_sel_pairs_snoc(
    d1: Seq<u8>,
    l1: nat,
    d2: Seq<u8>,
    l2: nat,
    bytes: Seq<u8>,
    idx: nat,
    cur1: nat,
    cur2: nat,
    k: nat,
)
    requires
        l1 > 0,
        l2 > 0,
        spec_sel_pairs(d1, l1, d2, l2, bytes, idx, cur1, cur2, k) is Some,
        spec_decode(
            d1,
            bytes,
            spec_sel_pairs(d1, l1, d2, l2, bytes, idx, cur1, cur2, k)->Some_0.0,
        ) is Some,
        spec_decode(
            d2,
            bytes,
            spec_decode(
                d1,
                bytes,
                spec_sel_pairs(d1, l1, d2, l2, bytes, idx, cur1, cur2, k)->Some_0.0,
            )->Some_0.1,
        ) is Some,
    ensures
        ({
            let (i1, c1, c2) = spec_sel_pairs(d1, l1, d2, l2, bytes, idx, cur1, cur2, k)->Some_0;
            let (s1, j1) = spec_decode(d1, bytes, i1)->Some_0;
            let (s2, j2) = spec_decode(d2, bytes, j1)->Some_0;
            spec_sel_pairs(d1, l1, d2, l2, bytes, idx, cur1, cur2, (k + 1) as nat) == Some(
                (j2, ((c1 + s1) % (l1 as int)) as nat, ((c2 + s2) % (l2 as int)) as nat),
            )
        }),
    decreases k,
{
    if k == 0 {
        let (s1, j1) = spec_decode(d1, bytes, idx)->Some_0;
        let (s2, j2) = spec_decode(d2, bytes, j1)->Some_0;
        assert(spec_sel_pairs(d1, l1, d2, l2, bytes, idx, cur1, cur2, 1) == spec_sel_pairs(
            d1,
            l1,
            d2,
            l2,
            bytes,
            j2,
            ((cur1 + s1) % (l1 as int)) as nat,
            ((cur2 + s2) % (l2 as int)) as nat,
            0,
        ));
    } else {
        let (s0, i1) = spec_decode(d1, bytes, idx)->Some_0;
        let (t0, i2) = spec_decode(d2, bytes, i1)->Some_0;
        let ca = ((cur1 + s0) % (l1 as int)) as nat;
        let cb = ((cur2 + t0) % (l2 as int)) as nat;
        assert(spec_sel_pairs(d1, l1, d2, l2, bytes, idx, cur1, cur2, k) == spec_sel_pairs(
            d1,
            l1,
            d2,
            l2,
            bytes,
            i2,
            ca,
            cb,
            (k - 1) as nat,
        ));
        lemma_sel_pairs_snoc(d1, l1, d2, l2, bytes, i2, ca, cb, (k - 1) as nat);
        assert(spec_sel_pairs(d1, l1, d2, l2, bytes, idx, cur1, cur2, (k + 1) as nat)
            == spec_sel_pairs(d1, l1, d2, l2, bytes, i2, ca, cb, k));
    }
}

/// Two distinct blocks of the same face occupy disjoint byte ranges.
proof fn lemma_block_ranges_disjoint(
    f: int,
    xa: int,
    ya: int,
    xb: int,
    yb: int,
    block_x: int,
    block_y: int,
    bs: int,
)
    requires
        bs > 0,
        0 <= xa < block_x,
        0 <= ya < block_y,
        0 <= xb < block_x,
        0 <= yb < block_y,
        (xa, ya) != (xb, yb),
    ensures
        spec_block_offset(f, xa, ya, block_x, block_y, bs) + bs <= spec_block_offset(
            f,
            xb,
            yb,
            block_x,
            block_y,
            bs,
        ) || spec_block_offset(f, xb, yb, block_x, block_y, bs) + bs <= spec_block_offset(
            f,
            xa,
            ya,
            block_x,
            block_y,
            bs,
        ),
{
    let base = f * (block_y * (block_x * bs));
    let oa = ya * (block_x * bs) + xa * bs;
    let ob = yb * (block_x * bs) + xb * bs;
    assert(oa + bs <= ob || ob + bs <= oa) by (nonlinear_arith)
        requires
            bs > 0,
            0 <= xa < block_x,
            0 <= ya < block_y,
            0 <= xb < block_x,
            0 <= yb < block_y,
            !(xa == xb && ya == yb),
            oa == ya * (block_x * bs) + xa * bs,
            ob == yb * (block_x * bs) + xb * bs,
    ;
}

/// The byte offset of block `(xb, yb)` of face `f` in the level buffer.
pub open spec fn spec_block_offset(f: int, xb: int, yb: int, block_x: int, block_y: int, bs: int) -> int {
    f * (block_y * (block_x * bs)) + yb * (block_x * bs) + xb * bs
}

/// Whether byte `p` of the level buffer lies inside some block that the
/// chunk at `(x, y)` of face `f` owns and keeps: a clipped block position
/// falls outside the level's block grid and is never written.
pub open spec fn spec_chunk_writes_at(
    p: int,
    f: int,
    x: int,
    y: int,
    block_x: int,
    block_y: int,
    bs: int,
) -> bool {
    exists|i: int|
        0 <= i < 4 && 2 * x + i % 2 < block_x && 2 * y + i / 2 < block_y && #[trigger] spec_block_offset(
            f,
            2 * x + i % 2,
            2 * y + i / 2,
            block_x,
            block_y,
            bs,
        ) <= p < spec_block_offset(f, 2 * x + i % 2, 2 * y + i / 2, block_x, block_y, bs) + bs
}

/// Copy an eight-byte block into the buffer at `pos`: exactly the bytes
/// `[pos, pos + 8)` change, to the block's bytes.
fn write_block8(result: &mut Vec<u8>, pos: usize, bytes: &[u8; 8])
    requires
        pos + 8 <= old(result)@.len(),
    ensures
        final(result)@.len() == old(result)@.len(),
        forall|p: int|
            0 <= p < old(result)@.len() && !(pos <= p < pos + 8) ==> final(result)@[p] == old(
                result,
            )@[p],
        forall|k: int| 0 <= k < 8 ==> final(result)@[pos + k] == bytes@[k],
{
    proof {
        vstd::std_specs::vec::axiom_spec_len(result);
    }
    let mut t: usize = 0;
    while t < 8
        invariant
            t <= 8,
            pos + 8 <= result@.len(),
            result@.len() <= usize::MAX,
            result@.len() == old(result)@.len(),
            forall|p: int|
                0 <= p < old(result)@.len() && !(pos <= p < pos + t) ==> result@[p] == old(
                    result,
                )@[p],
            forall|k: int| 0 <= k < t ==> result@[pos + k] == bytes@[k],
        decreases 8 - t,
    {
        result[pos + t] = bytes[t];
        t = t + 1;
    }
}

/// Copy a sixteen-byte block into the buffer at `pos`: exactly the bytes
/// `[pos, pos + 16)` change, to the block's bytes.
fn write_block16(result: &mut Vec<u8>, pos: usize, bytes: &[u8; 16])
    requires
        pos + 16 <= old(result)@.len(),
    ensures
        final(result)@.len() == old(result)@.len(),
        forall|p: int|
            0 <= p < old(result)@.len() && !(pos <= p < pos + 16) ==> final(result)@[p] == old(
                result,
            )@[p],
        forall|k: int| 0 <= k < 16 ==> final(result)@[pos + k] == bytes@[k],
{
    proof {
        vstd::std_specs::vec::axiom_spec_len(result);
    }
    let mut t: usize = 0;
    while t < 16
        invariant
            t <= 16,
            pos + 16 <= result@.len(),
            result@.len() <= usize::MAX,
            result@.len() == old(result)@.len(),
            forall|p: int|
                0 <= p < old(result)@.len() && !(pos <= p < pos + t) ==> result@[p] == old(
                    result,
                )@[p],
            forall|k: int| 0 <= k < t ==> result@[pos + k] == bytes@[k],
        decreases 16 - t,
    {
        result[pos + t] = bytes[t];
        t = t + 1;
    }
}


/// The wire bytes of a DXT1 block, as a sequence.
pub open spec fn spec_dxt1_bytes(ep: (u16, u16), sel: [u8; 4]) -> Seq<u8> {
    seq![
        (ep.0 % 256) as u8,
        (ep.0 / 256) as u8,
        (ep.1 % 256) as u8,
        (ep.1 / 256) as u8,
        sel@[0],
        sel@[1],
        sel@[2],
        sel@[3],
    ]
}

/// One DXT1 block position `j` of the chunk at `(x, y)` of face `f`
/// holds the block built from its tile's endpoint entry and its own
/// selector entry, at the block's raster offset. `idx1` and `idxs`
/// anchor the delta folds: after the tile read and after the endpoints.
pub open spec fn spec_dxt1_pos_ok(
    t: Tables,
    bytes: Seq<u8>,
    st: UnpackState,
    ti: u32,
    idx1: nat,
    idxs: nat,
    f: int,
    x: int,
    y: int,
    block_x: int,
    block_y: int,
    j: int,
    buf: Seq<u8>,
) -> bool {
    spec_n_nexts(
        t.color_endpoint.delta.depths(),
        t.color_endpoint.entries@.len(),
        bytes,
        idx1,
        st.color_endpoint,
        (spec_tile(ti as int, j) + 1) as nat,
    ) matches Some(ep) && (spec_n_nexts(
        t.color_selector.delta.depths(),
        t.color_selector.entries@.len(),
        bytes,
        idxs,
        st.color_selector,
        (j + 1) as nat,
    ) matches Some(sel) && buf.subrange(
        spec_block_offset(f, 2 * x + j % 2, 2 * y + j / 2, block_x, block_y, 8),
        spec_block_offset(f, 2 * x + j % 2, 2 * y + j / 2, block_x, block_y, 8) + 8,
    ) == spec_dxt1_bytes(
        t.color_endpoint.entries@[ep.1 as int],
        t.color_selector.entries@[sel.1 as int],
    ))
}

/// What a DXT1 chunk leaves in the buffer: every unclipped block
/// position holds its block, as `spec_dxt1_pos_ok` states it.
pub open spec fn spec_dxt1_content(
    t: Tables,
    bytes: Seq<u8>,
    st: UnpackState,
    f: int,
    x: int,
    y: int,
    block_x: int,
    block_y: int,
    buf: Seq<u8>,
) -> bool {
    spec_next_tile(t.chunk_encoding.depths(), bytes, st.idx, st.tile_bits) matches Some(
        (ti, tb2, idx1),
    ) && (spec_n_nexts(
        t.color_endpoint.delta.depths(),
        t.color_endpoint.entries@.len(),
        bytes,
        idx1,
        st.color_endpoint,
        spec_count_tiles(ti as int),
    ) matches Some(epend) && (forall|j: int|
        0 <= j < 4 && 2 * x + #[trigger] (j % 2) < block_x && 2 * y + j / 2 < block_y
            ==> spec_dxt1_pos_ok(
            t,
            bytes,
            st,
            ti,
            idx1,
            epend.0,
            f,
            x,
            y,
            block_x,
            block_y,
            j,
            buf,
        )))
}

/// One block position of a DXT1 chunk: read the selector, and write
/// the block unless clipping suppresses it.
#[verifier::loop_isolation(false)]
#[verifier::rlimit(100)]
#[verifier::spinoff_prover]
fn dxt1_position_step(
    tables: &Tables,
    codec: &mut Codec,
    cur: &mut UnpackCursors,
    result: &mut Vec<u8>,
    endpoints: &Vec<(u16, u16)>,
    tls: &[usize; 4],
    i: usize,
    f: usize,
    x: usize,
    y: usize,
    block_x: usize,
    block_y: usize,
    face: u8,
    skip_x: bool,
    skip_y: bool,
    Ghost(b): Ghost<Seq<u8>>,
    Ghost(st0): Ghost<UnpackState>,
    Ghost(g_ti): Ghost<u32>,
    Ghost(idx1): Ghost<nat>,
    Ghost(idxs): Ghost<nat>,
    Ghost(res_old): Ghost<Seq<u8>>,
) -> (r: Result<(), Error>)
    requires
        tables.wf(),
        old(codec).wf(),
        old(cur).ok(*tables),
        b == old(codec).bytes(),
        i < 4,
        f < face,
        block_x <= 16384,
        block_y <= 16384,
        x < (block_x + 1) as int / 2,
        y < (block_y + 1) as int / 2,
        skip_y == (y == (block_y + 1) as int / 2 - 1 && block_y % 2 == 1),
        skip_x == (block_x % 2 == 1 && x == (block_x + 1) as int / 2 - 1),
        res_old.len() == (block_y * (block_x * 8)) * (face as int),
        old(result)@.len() == res_old.len(),
        spec_count_tiles(g_ti as int) <= 4,
        forall|p: int| 0 <= p < 4 ==> tls@[p] == spec_tile(g_ti as int, p),
        forall|p: int| 0 <= p < 4 ==> tls@[p] < spec_count_tiles(g_ti as int),
        endpoints@.len() == 4,
        forall|k: int|
            0 <= k < spec_count_tiles(g_ti as int) ==> (#[trigger] spec_n_nexts(
                tables.color_endpoint.delta.depths(),
                tables.color_endpoint.entries@.len(),
                b,
                idx1,
                st0.color_endpoint,
                (k + 1) as nat,
            ) matches Some(pr) && endpoints@[k] == tables.color_endpoint.entries@[pr.1 as int]),
        spec_n_nexts(
            tables.color_selector.delta.depths(),
            tables.color_selector.entries@.len(),
            b,
            idxs,
            st0.color_selector,
            i as nat,
        ) == Some((old(codec).bit_index(), old(cur).color_selector as nat)),
        spec_n_nexts(
            tables.color_selector.delta.depths(),
            tables.color_selector.entries@.len(),
            b,
            old(codec).bit_index(),
            old(cur).color_selector as nat,
            (4 - i) as nat,
        ) == spec_n_nexts(
            tables.color_selector.delta.depths(),
            tables.color_selector.entries@.len(),
            b,
            idxs,
            st0.color_selector,
            4,
        ),
        forall|j: int|
            0 <= j < i && 2 * (x as int) + #[trigger] (j % 2) < block_x && 2 * (y as int) + j / 2
                < block_y ==> spec_dxt1_pos_ok(
                *tables,
                b,
                st0,
                g_ti,
                idx1,
                idxs,
                f as int,
                x as int,
                y as int,
                block_x as int,
                block_y as int,
                j,
                old(result)@,
            ),
        forall|p: int|
            0 <= p < res_old.len() && !spec_chunk_writes_at(
                p,
                f as int,
                x as int,
                y as int,
                block_x as int,
                block_y as int,
                8,
            ) ==> old(result)@[p] == res_old[p],
    ensures
        final(codec).wf(),
        final(codec).bytes() == b,
        final(cur).ok(*tables),
        final(result)@.len() == old(result)@.len(),
        final(cur).tile_bits == old(cur).tile_bits,
        final(cur).color_endpoint == old(cur).color_endpoint,
        final(cur).alpha0_endpoint == old(cur).alpha0_endpoint,
        final(cur).alpha1_endpoint == old(cur).alpha1_endpoint,
        final(cur).alpha1_selector == old(cur).alpha1_selector,
        final(cur).alpha0_selector == old(cur).alpha0_selector,
        forall|p: int|
            0 <= p < res_old.len() && !spec_chunk_writes_at(
                p,
                f as int,
                x as int,
                y as int,
                block_x as int,
                block_y as int,
                8,
            ) ==> final(result)@[p] == res_old[p],
        match r {
            Ok(_) => {
                &&& spec_n_nexts(
                    tables.color_selector.delta.depths(),
                    tables.color_selector.entries@.len(),
                    b,
                    idxs,
                    st0.color_selector,
                    (i + 1) as nat,
                ) == Some((final(codec).bit_index(), final(cur).color_selector as nat))
                &&& spec_n_nexts(
                    tables.color_selector.delta.depths(),
                    tables.color_selector.entries@.len(),
                    b,
                    final(codec).bit_index(),
                    final(cur).color_selector as nat,
                    (4 - i - 1) as nat,
                ) == spec_n_nexts(
                    tables.color_selector.delta.depths(),
                    tables.color_selector.entries@.len(),
                    b,
                    idxs,
                    st0.color_selector,
                    4,
                )
                &&& (forall|j: int|
                    0 <= j < i + 1 && 2 * (x as int) + #[trigger] (j % 2) < block_x && 2 * (
                    y as int) + j / 2 < block_y ==> spec_dxt1_pos_ok(
                        *tables,
                        b,
                        st0,
                        g_ti,
                        idx1,
                        idxs,
                        f as int,
                        x as int,
                        y as int,
                        block_x as int,
                        block_y as int,
                        j,
                        final(result)@,
                    ))
            },
            Err(_) => spec_n_nexts(
                tables.color_selector.delta.depths(),
                tables.color_selector.entries@.len(),
                b,
                idxs,
                st0.color_selector,
                4,
            ) is None,
        },
{
    let bs: usize = 8;
    let tile = tls[i];
    let clip = (skip_x && i % 2 == 1) || (skip_y && i >= 2);
    proof {
        if !clip && block_x > 0 && block_y > 0 {
            lemma_block_in_range(block_x as int, x as int, (i % 2) as int);
            lemma_block_in_range(block_y as int, y as int, (i / 2) as int);
        }
        vstd::std_specs::vec::axiom_spec_len(result);
        assert(((f + 1) as int) * (block_y * (block_x * bs)) <= result@.len()) by (
        nonlinear_arith)
            requires
                f < face,
                result@.len() == (block_y * (block_x * bs)) * (face as int),
                0 <= block_y * (block_x * bs),
        ;
    }
    let mut cs = cur.color_selector;
    let color_selector = match tables.color_selector.next(codec, &mut cs) {
        Ok(v) => v,
        Err(e) => { return Err(e) },
    };
    cur.color_selector = cs;
    proof {
        lemma_n_nexts_snoc(
            tables.color_selector.delta.depths(),
            tables.color_selector.entries@.len(),
            b,
            idxs,
            st0.color_selector,
            i as nat,
        );
    }
    if !clip {
        let pos = block_write_pos(f, y * 2 + i / 2, x * 2 + i % 2, block_x, block_y, bs);
        let bytes = (Dxt1 { color_endpoint: endpoints[tile], color_selector }).to_bytes();
        let ghost res0 = result@;
        write_block8(result, pos, &bytes);
        proof {
            let xb = 2 * (x as int) + (i as int) % 2;
            let yb = 2 * (y as int) + (i as int) / 2;
            assert(bytes@ =~= spec_dxt1_bytes(endpoints@[tile as int], color_selector));
            assert(result@.subrange(pos as int, pos as int + 8) =~= bytes@);
            assert forall|j: int|
                0 <= j < i + 1 && 2 * (x as int) + #[trigger] (j % 2) < block_x && 2 * (
                y as int) + j / 2 < block_y implies spec_dxt1_pos_ok(
                *tables,
                b,
                st0,
                g_ti,
                idx1,
                idxs,
                f as int,
                x as int,
                y as int,
                block_x as int,
                block_y as int,
                j,
                result@,
            ) by {
                let offj = spec_block_offset(
                    f as int,
                    2 * (x as int) + j % 2,
                    2 * (y as int) + j / 2,
                    block_x as int,
                    block_y as int,
                    8,
                );
                if j < i {
                    lemma_block_ranges_disjoint(
                        f as int,
                        2 * (x as int) + j % 2,
                        2 * (y as int) + j / 2,
                        xb,
                        yb,
                        block_x as int,
                        block_y as int,
                        8,
                    );
                    let xbj = 2 * (x as int) + j % 2;
                    let ybj = 2 * (y as int) + j / 2;
                    assert(0 <= offj && offj + 8 <= result@.len()) by (nonlinear_arith)
                        requires
                            offj == (f as int) * ((block_y as int) * ((block_x as int) * 8))
                                + ybj * ((block_x as int) * 8) + xbj * 8,
                            0 <= xbj < block_x as int,
                            0 <= ybj < block_y as int,
                            0 <= f < face,
                            result@.len() == ((block_y as int) * ((block_x as int) * 8)) * (
                            face as int),
                    ;
                    assert forall|p: int| offj <= p < offj + 8 implies result@[p] == res0[p] by {}
                    assert(result@.subrange(offj, offj + 8) =~= res0.subrange(offj, offj + 8));
                }
            }
            assert forall|p: int| pos <= p < pos + 8 implies spec_chunk_writes_at(
                p,
                f as int,
                x as int,
                y as int,
                block_x as int,
                block_y as int,
                8,
            ) by {
                assert(0 <= (i as int) < 4 && 2 * (x as int) + (i as int) % 2 < block_x && 2 * (
                y as int) + (i as int) / 2 < block_y && spec_block_offset(
                    f as int,
                    xb,
                    yb,
                    block_x as int,
                    block_y as int,
                    8,
                ) <= p < spec_block_offset(
                    f as int,
                    xb,
                    yb,
                    block_x as int,
                    block_y as int,
                    8,
                ) + 8);
            }
            assert forall|p: int|
                0 <= p < res_old.len() && !spec_chunk_writes_at(
                    p,
                    f as int,
                    x as int,
                    y as int,
                    block_x as int,
                    block_y as int,
                    8,
                ) implies result@[p] == res_old[p] by {
                if pos <= p < pos + 8 {
                    assert(spec_chunk_writes_at(
                        p,
                        f as int,
                        x as int,
                        y as int,
                        block_x as int,
                        block_y as int,
                        8,
                    ));
                }
            }
        }
    } else {
        proof {
            if skip_x && i % 2 == 1 {
                lemma_clip_outside(block_x as int, x as int);
            }
            if skip_y && i >= 2 {
                lemma_clip_outside(block_y as int, y as int);
            }
        }
    }
    Ok(())
}

/// Decode one chunk of a DXT1 level and write its unclipped blocks:
/// read the tile structure, the per-tile endpoints, then per block
/// position the selectors, placing each block kept by the clipping rule
/// at its raster offset in `result`.
#[verifier::loop_isolation(false)]
#[verifier::rlimit(100)]
#[verifier::spinoff_prover]
fn unpack_chunk_dxt1(
    tables: &Tables,
    codec: &mut Codec,
    cur: &mut UnpackCursors,
    result: &mut Vec<u8>,
    f: usize,
    x: usize,
    y: usize,
    block_x: usize,
    block_y: usize,
    face: u8,
) -> (r: Result<(), Error>)
    requires
        tables.wf(),
        old(codec).wf(),
        old(cur).ok(*tables),
        f < face,
        block_x <= 16384,
        block_y <= 16384,
        x < (block_x + 1) as int / 2,
        y < (block_y + 1) as int / 2,
        old(result)@.len() == (block_y * (block_x * 8)) * (face as int),
    ensures
        final(codec).wf(),
        final(codec).bytes() == old(codec).bytes(),
        final(cur).ok(*tables),
        final(result)@.len() == old(result)@.len(),
        forall|p: int|
            0 <= p < old(result)@.len() && !spec_chunk_writes_at(
                p,
                f as int,
                x as int,
                y as int,
                block_x as int,
                block_y as int,
                8,
            ) ==> final(result)@[p] == old(result)@[p],
        match r {
            Ok(_) => spec_chunk_step(
                *tables,
                old(codec).bytes(),
                old(cur).state(old(codec).bit_index()),
                BlockFormat::Dxt1,
            ) == Some(final(cur).state(final(codec).bit_index())) && spec_dxt1_content(
                *tables,
                old(codec).bytes(),
                old(cur).state(old(codec).bit_index()),
                f as int,
                x as int,
                y as int,
                block_x as int,
                block_y as int,
                final(result)@,
            ),
            Err(_) => spec_chunk_step(
                *tables,
                old(codec).bytes(),
                old(cur).state(old(codec).bit_index()),
                BlockFormat::Dxt1,
            ) is None,
        },
{
    let ghost b = old(codec).bytes();
    let bs: usize = 8;
    let skip_y = y == (block_y + 1) / TRUNK_SIZE - 1 && block_y % 2 == 1;
    let skip_x = block_x % 2 == 1 && x == (block_x + 1) / TRUNK_SIZE - 1;

    let mut tile_bits = cur.tile_bits;
    let (tiles_count, tls) = match next_tile_idx(codec, &tables.chunk_encoding, &mut tile_bits) {
        Ok(ct) => ct,
        Err(e) => { return Err(e) },
    };
    cur.tile_bits = tile_bits;
    let ghost idx1 = codec.bit_index();
    let ghost tb_done = cur.tile_bits;
    let ghost g_ti = spec_next_tile(
        tables.chunk_encoding.depths(),
        b,
        old(codec).bit_index(),
        old(cur).tile_bits,
    )->Some_0.0;

    let mut color_endpoints: Vec<(u16, u16)> = vec![(0u16, 0u16); 4];
    {
        let mut i: usize = 0;
        while i < tiles_count
            invariant
                codec.wf(),
                codec.bytes() == b,
                i <= tiles_count,
                cur.ok(*tables),
                cur.tile_bits == tb_done,
                cur.color_selector == old(cur).color_selector,
                cur.alpha0_endpoint == old(cur).alpha0_endpoint,
                cur.alpha0_selector == old(cur).alpha0_selector,
                cur.alpha1_endpoint == old(cur).alpha1_endpoint,
                cur.alpha1_selector == old(cur).alpha1_selector,
                color_endpoints@.len() == 4,
                result@.len() == old(result)@.len(),
                spec_n_nexts(
                    tables.color_endpoint.delta.depths(),
                    tables.color_endpoint.entries@.len(),
                    b,
                    codec.bit_index(),
                    cur.color_endpoint as nat,
                    (tiles_count - i) as nat,
                ) == spec_n_nexts(
                    tables.color_endpoint.delta.depths(),
                    tables.color_endpoint.entries@.len(),
                    b,
                    idx1,
                    old(cur).color_endpoint as nat,
                    tiles_count as nat,
                ),
                spec_n_nexts(
                    tables.color_endpoint.delta.depths(),
                    tables.color_endpoint.entries@.len(),
                    b,
                    idx1,
                    old(cur).color_endpoint as nat,
                    i as nat,
                ) == Some((codec.bit_index(), cur.color_endpoint as nat)),
                forall|k: int|
                    0 <= k < i ==> (#[trigger] spec_n_nexts(
                        tables.color_endpoint.delta.depths(),
                        tables.color_endpoint.entries@.len(),
                        b,
                        idx1,
                        old(cur).color_endpoint as nat,
                        (k + 1) as nat,
                    ) matches Some(pr) && color_endpoints@[k]
                        == tables.color_endpoint.entries@[pr.1 as int]),
            decreases tiles_count - i,
        {
            let mut c = cur.color_endpoint;
            let e = match tables.color_endpoint.next(codec, &mut c) {
                Ok(v) => v,
                Err(e) => { return Err(e) },
            };
            cur.color_endpoint = c;
            color_endpoints[i] = e;
            proof {
                lemma_n_nexts_snoc(
                    tables.color_endpoint.delta.depths(),
                    tables.color_endpoint.entries@.len(),
                    b,
                    idx1,
                    old(cur).color_endpoint as nat,
                    i as nat,
                );
            }
            i = i + 1;
        }
    }
    let ghost idx_ce = codec.bit_index();
    let ghost ce_done = cur.color_endpoint;

    let ghost st0 = old(cur).state(old(codec).bit_index());
    let mut i: usize = 0;
    while i < 4
        invariant
            codec.wf(),
            codec.bytes() == b,
            i <= 4,
            cur.ok(*tables),
            cur.tile_bits == tb_done,
            cur.color_endpoint == ce_done,
            cur.alpha0_endpoint == old(cur).alpha0_endpoint,
            cur.alpha0_selector == old(cur).alpha0_selector,
            cur.alpha1_endpoint == old(cur).alpha1_endpoint,
            cur.alpha1_selector == old(cur).alpha1_selector,
            result@.len() == old(result)@.len(),
            spec_n_nexts(
                tables.color_selector.delta.depths(),
                tables.color_selector.entries@.len(),
                b,
                idx_ce,
                st0.color_selector,
                i as nat,
            ) == Some((codec.bit_index(), cur.color_selector as nat)),
            spec_n_nexts(
                tables.color_selector.delta.depths(),
                tables.color_selector.entries@.len(),
                b,
                codec.bit_index(),
                cur.color_selector as nat,
                (4 - i) as nat,
            ) == spec_n_nexts(
                tables.color_selector.delta.depths(),
                tables.color_selector.entries@.len(),
                b,
                idx_ce,
                st0.color_selector,
                4,
            ),
            forall|j: int|
                0 <= j < i && 2 * (x as int) + #[trigger] (j % 2) < block_x && 2 * (y as int) + j
                    / 2 < block_y ==> spec_dxt1_pos_ok(
                    *tables,
                    b,
                    st0,
                    g_ti,
                    idx1,
                    idx_ce,
                    f as int,
                    x as int,
                    y as int,
                    block_x as int,
                    block_y as int,
                    j,
                    result@,
                ),
            forall|p: int|
                0 <= p < old(result)@.len() && !spec_chunk_writes_at(
                    p,
                    f as int,
                    x as int,
                    y as int,
                    block_x as int,
                    block_y as int,
                    8,
                ) ==> result@[p] == old(result)@[p],
        decreases 4 - i,
    {
        match dxt1_position_step(
            tables,
            codec,
            cur,
            result,
            &color_endpoints,
            &tls,
            i,
            f,
            x,
            y,
            block_x,
            block_y,
            face,
            skip_x,
            skip_y,
            Ghost(b),
            Ghost(st0),
            Ghost(g_ti),
            Ghost(idx1),
            Ghost(idx_ce),
            Ghost(old(result)@),
        ) {
            Ok(_) => {},
            Err(e) => { return Err(e) },
        }
        i = i + 1;
    }
    proof {
        assert(spec_dxt1_content(
            *tables,
            b,
            st0,
            f as int,
            x as int,
            y as int,
            block_x as int,
            block_y as int,
            result@,
        ));
    }
    Ok(())
}


/// The wire bytes of a DXT5 block, as a sequence.
pub open spec fn spec_dxt5_bytes(ae: (u8, u8), asel: [u8; 6], ce: (u16, u16), csel: [u8; 4]) -> Seq<
    u8,
> {
    seq![
        ae.0,
        ae.1,
        asel@[0],
        asel@[1],
        asel@[2],
        asel@[3],
        asel@[4],
        asel@[5],
        (ce.0 % 256) as u8,
        (ce.0 / 256) as u8,
        (ce.1 % 256) as u8,
        (ce.1 / 256) as u8,
        csel@[0],
        csel@[1],
        csel@[2],
        csel@[3],
    ]
}

/// One DXT5 block position `j` of the chunk at `(x, y)` of face `f`
/// holds the block built from its tile's alpha and color endpoint
/// entries and its own pair of selector entries, at the block's raster
/// offset. `idx1`, `idxa` and `idxc` anchor the delta folds: after the
/// tile read, after the alpha endpoints, and after the color endpoints.
pub open spec fn spec_dxt5_pos_ok(
    t: Tables,
    bytes: Seq<u8>,
    st: UnpackState,
    ti: u32,
    idx1: nat,
    idxa: nat,
    idxc: nat,
    f: int,
    x: int,
    y: int,
    block_x: int,
    block_y: int,
    j: int,
    buf: Seq<u8>,
) -> bool {
    spec_n_nexts(
        t.alpha_endpoint.delta.depths(),
        t.alpha_endpoint.entries@.len(),
        bytes,
        idx1,
        st.alpha0_endpoint,
        (spec_tile(ti as int, j) + 1) as nat,
    ) matches Some(aep) && (spec_n_nexts(
        t.color_endpoint.delta.depths(),
        t.color_endpoint.entries@.len(),
        bytes,
        idxa,
        st.color_endpoint,
        (spec_tile(ti as int, j) + 1) as nat,
    ) matches Some(cep) && (spec_sel_pairs(
        t.alpha_selector.delta.depths(),
        t.alpha_selector.entries@.len(),
        t.color_selector.delta.depths(),
        t.color_selector.entries@.len(),
        bytes,
        idxc,
        st.alpha0_selector,
        st.color_selector,
        (j + 1) as nat,
    ) matches Some(selp) && buf.subrange(
        spec_block_offset(f, 2 * x + j % 2, 2 * y + j / 2, block_x, block_y, 16),
        spec_block_offset(f, 2 * x + j % 2, 2 * y + j / 2, block_x, block_y, 16) + 16,
    ) == spec_dxt5_bytes(
        t.alpha_endpoint.entries@[aep.1 as int],
        t.alpha_selector.entries@[selp.1 as int],
        t.color_endpoint.entries@[cep.1 as int],
        t.color_selector.entries@[selp.2 as int],
    )))
}

/// What a DXT5 chunk leaves in the buffer: every unclipped block
/// position holds its block, as `spec_dxt5_pos_ok` states it.
pub open spec fn spec_dxt5_content(
    t: Tables,
    bytes: Seq<u8>,
    st: UnpackState,
    f: int,
    x: int,
    y: int,
    block_x: int,
    block_y: int,
    buf: Seq<u8>,
) -> bool {
    spec_next_tile(t.chunk_encoding.depths(), bytes, st.idx, st.tile_bits) matches Some(
        (ti, tb2, idx1),
    ) && (spec_n_nexts(
        t.alpha_endpoint.delta.depths(),
        t.alpha_endpoint.entries@.len(),
        bytes,
        idx1,
        st.alpha0_endpoint,
        spec_count_tiles(ti as int),
    ) matches Some(aend) && (spec_n_nexts(
        t.color_endpoint.delta.depths(),
        t.color_endpoint.entries@.len(),
        bytes,
        aend.0,
        st.color_endpoint,
        spec_count_tiles(ti as int),
    ) matches Some(cend) && (forall|j: int|
        0 <= j < 4 && 2 * x + #[trigger] (j % 2) < block_x && 2 * y + j / 2 < block_y
            ==> spec_dxt5_pos_ok(
            t,
            bytes,
            st,
            ti,
            idx1,
            aend.0,
            cend.0,
            f,
            x,
            y,
            block_x,
            block_y,
            j,
            buf,
        ))))
}

/// One block position of a DXT5 chunk: read the alpha and color
/// selectors, and write the block unless clipping suppresses it.
#[verifier::loop_isolation(false)]
#[verifier::rlimit(100)]
#[verifier::spinoff_prover]
fn dxt5_position_step(
    tables: &Tables,
    codec: &mut Codec,
    cur: &mut UnpackCursors,
    result: &mut Vec<u8>,
    alpha0_endpoints: &Vec<(u8, u8)>,
    color_endpoints: &Vec<(u16, u16)>,
    tls: &[usize; 4],
    i: usize,
    f: usize,
    x: usize,
    y: usize,
    block_x: usize,
    block_y: usize,
    face: u8,
    skip_x: bool,
    skip_y: bool,
    Ghost(b): Ghost<Seq<u8>>,
    Ghost(st0): Ghost<UnpackState>,
    Ghost(g_ti): Ghost<u32>,
    Ghost(idx1): Ghost<nat>,
    Ghost(idx_a0): Ghost<nat>,
    Ghost(idx_ce): Ghost<nat>,
    Ghost(res_old): Ghost<Seq<u8>>,
) -> (r: Result<(), Error>)
    requires
        tables.wf(),
        old(codec).wf(),
        old(cur).ok(*tables),
        b == old(codec).bytes(),
        i < 4,
        f < face,
        block_x <= 16384,
        block_y <= 16384,
        x < (block_x + 1) as int / 2,
        y < (block_y + 1) as int / 2,
        skip_y == (y == (block_y + 1) as int / 2 - 1 && block_y % 2 == 1),
        skip_x == (block_x % 2 == 1 && x == (block_x + 1) as int / 2 - 1),
        res_old.len() == (block_y * (block_x * 16)) * (face as int),
        old(result)@.len() == res_old.len(),
        spec_count_tiles(g_ti as int) <= 4,
        forall|p: int| 0 <= p < 4 ==> tls@[p] == spec_tile(g_ti as int, p),
        forall|p: int| 0 <= p < 4 ==> tls@[p] < spec_count_tiles(g_ti as int),
        alpha0_endpoints@.len() == 4,
        color_endpoints@.len() == 4,
        forall|k: int|
            0 <= k < spec_count_tiles(g_ti as int) ==> (#[trigger] spec_n_nexts(
                tables.alpha_endpoint.delta.depths(),
                tables.alpha_endpoint.entries@.len(),
                b,
                idx1,
                st0.alpha0_endpoint,
                (k + 1) as nat,
            ) matches Some(pr) && alpha0_endpoints@[k]
                == tables.alpha_endpoint.entries@[pr.1 as int]),
        forall|k: int|
            0 <= k < spec_count_tiles(g_ti as int) ==> (#[trigger] spec_n_nexts(
                tables.color_endpoint.delta.depths(),
                tables.color_endpoint.entries@.len(),
                b,
                idx_a0,
                st0.color_endpoint,
                (k + 1) as nat,
            ) matches Some(pr) && color_endpoints@[k]
                == tables.color_endpoint.entries@[pr.1 as int]),
        spec_sel_pairs(
            tables.alpha_selector.delta.depths(),
            tables.alpha_selector.entries@.len(),
            tables.color_selector.delta.depths(),
            tables.color_selector.entries@.len(),
            b,
            idx_ce,
            st0.alpha0_selector,
            st0.color_selector,
            i as nat,
        ) == Some(
            (
                old(codec).bit_index(),
                old(cur).alpha0_selector as nat,
                old(cur).color_selector as nat,
            ),
        ),
        spec_sel_pairs(
            tables.alpha_selector.delta.depths(),
            tables.alpha_selector.entries@.len(),
            tables.color_selector.delta.depths(),
            tables.color_selector.entries@.len(),
            b,
            old(codec).bit_index(),
            old(cur).alpha0_selector as nat,
            old(cur).color_selector as nat,
            (4 - i) as nat,
        ) == spec_sel_pairs(
            tables.alpha_selector.delta.depths(),
            tables.alpha_selector.entries@.len(),
            tables.color_selector.delta.depths(),
            tables.color_selector.entries@.len(),
            b,
            idx_ce,
            st0.alpha0_selector,
            st0.color_selector,
            4,
        ),
        forall|j: int|
            0 <= j < i && 2 * (x as int) + #[trigger] (j % 2) < block_x && 2 * (y as int) + j / 2
                < block_y ==> spec_dxt5_pos_ok(
                *tables,
                b,
                st0,
                g_ti,
                idx1,
                idx_a0,
                idx_ce,
                f as int,
                x as int,
                y as int,
                block_x as int,
                block_y as int,
                j,
                old(result)@,
            ),
        forall|p: int|
            0 <= p < res_old.len() && !spec_chunk_writes_at(
                p,
                f as int,
                x as int,
                y as int,
                block_x as int,
                block_y as int,
                16,
            ) ==> old(result)@[p] == res_old[p],
    ensures
        final(codec).wf(),
        final(codec).bytes() == b,
        final(cur).ok(*tables),
        final(result)@.len() == old(result)@.len(),
        final(cur).tile_bits == old(cur).tile_bits,
        final(cur).color_endpoint == old(cur).color_endpoint,
        final(cur).alpha0_endpoint == old(cur).alpha0_endpoint,
        final(cur).alpha1_endpoint == old(cur).alpha1_endpoint,
        final(cur).alpha1_selector == old(cur).alpha1_selector,
        forall|p: int|
            0 <= p < res_old.len() && !spec_chunk_writes_at(
                p,
                f as int,
                x as int,
                y as int,
                block_x as int,
                block_y as int,
                16,
            ) ==> final(result)@[p] == res_old[p],
        match r {
            Ok(_) => {
                &&& spec_sel_pairs(
                    tables.alpha_selector.delta.depths(),
                    tables.alpha_selector.entries@.len(),
                    tables.color_selector.delta.depths(),
                    tables.color_selector.entries@.len(),
                    b,
                    idx_ce,
                    st0.alpha0_selector,
                    st0.color_selector,
                    (i + 1) as nat,
                ) == Some(
                    (
                        final(codec).bit_index(),
                        final(cur).alpha0_selector as nat,
                        final(cur).color_selector as nat,
                    ),
                )
                &&& spec_sel_pairs(
                    tables.alpha_selector.delta.depths(),
                    tables.alpha_selector.entries@.len(),
                    tables.color_selector.delta.depths(),
                    tables.color_selector.entries@.len(),
                    b,
                    final(codec).bit_index(),
                    final(cur).alpha0_selector as nat,
                    final(cur).color_selector as nat,
                    (4 - i - 1) as nat,
                ) == spec_sel_pairs(
                    tables.alpha_selector.delta.depths(),
                    tables.alpha_selector.entries@.len(),
                    tables.color_selector.delta.depths(),
                    tables.color_selector.entries@.len(),
                    b,
                    idx_ce,
                    st0.alpha0_selector,
                    st0.color_selector,
                    4,
                )
                &&& (forall|j: int|
                    0 <= j < i + 1 && 2 * (x as int) + #[trigger] (j % 2) < block_x && 2 * (
                    y as int) + j / 2 < block_y ==> spec_dxt5_pos_ok(
                        *tables,
                        b,
                        st0,
                        g_ti,
                        idx1,
                        idx_a0,
                        idx_ce,
                        f as int,
                        x as int,
                        y as int,
                        block_x as int,
                        block_y as int,
                        j,
                        final(result)@,
                    ))
            },
            Err(_) => spec_sel_pairs(
                tables.alpha_selector.delta.depths(),
                tables.alpha_selector.entries@.len(),
                tables.color_selector.delta.depths(),
                tables.color_selector.entries@.len(),
                b,
                idx_ce,
                st0.alpha0_selector,
                st0.color_selector,
                4,
            ) is None,
        },
{
    let bs: usize = 16;
    let tile = tls[i];
    let clip = (skip_x && i % 2 == 1) || (skip_y && i >= 2);
    proof {
        if !clip && block_x > 0 && block_y > 0 {
            lemma_block_in_range(block_x as int, x as int, (i % 2) as int);
            lemma_block_in_range(block_y as int, y as int, (i / 2) as int);
        }
        vstd::std_specs::vec::axiom_spec_len(result);
        assert(((f + 1) as int) * (block_y * (block_x * bs)) <= result@.len()) by (
        nonlinear_arith)
            requires
                f < face,
                result@.len() == (block_y * (block_x * bs)) * (face as int),
                0 <= block_y * (block_x * bs),
        ;
    }
    let mut ca = cur.alpha0_selector;
    let alpha_selector = match tables.alpha_selector.next(codec, &mut ca) {
        Ok(v) => v,
        Err(e) => { return Err(e) },
    };
    cur.alpha0_selector = ca;
    let mut cc = cur.color_selector;
    let color_selector = match tables.color_selector.next(codec, &mut cc) {
        Ok(v) => v,
        Err(e) => { return Err(e) },
    };
    cur.color_selector = cc;
    proof {
        lemma_sel_pairs_snoc(
            tables.alpha_selector.delta.depths(),
            tables.alpha_selector.entries@.len(),
            tables.color_selector.delta.depths(),
            tables.color_selector.entries@.len(),
            b,
            idx_ce,
            st0.alpha0_selector,
            st0.color_selector,
            i as nat,
        );
    }
    if !clip {
        let pos = block_write_pos(f, y * 2 + i / 2, x * 2 + i % 2, block_x, block_y, bs);
        let bytes = (Dxt5 {
            alpha_endpoint: alpha0_endpoints[tile],
            alpha_selector,
            color_endpoint: color_endpoints[tile],
            color_selector,
        }).to_bytes();
        let ghost res0 = result@;
        write_block16(result, pos, &bytes);
        proof {
            let xb = 2 * (x as int) + (i as int) % 2;
            let yb = 2 * (y as int) + (i as int) / 2;
            assert(bytes@ =~= spec_dxt5_bytes(
                alpha0_endpoints@[tile as int],
                alpha_selector,
                color_endpoints@[tile as int],
                color_selector,
            ));
            assert(result@.subrange(pos as int, pos as int + 16) =~= bytes@);
            assert forall|j: int|
                0 <= j < i + 1 && 2 * (x as int) + #[trigger] (j % 2) < block_x && 2 * (
                y as int) + j / 2 < block_y implies spec_dxt5_pos_ok(
                *tables,
                b,
                st0,
                g_ti,
                idx1,
                idx_a0,
                idx_ce,
                f as int,
                x as int,
                y as int,
                block_x as int,
                block_y as int,
                j,
                result@,
            ) by {
                let offj = spec_block_offset(
                    f as int,
                    2 * (x as int) + j % 2,
                    2 * (y as int) + j / 2,
                    block_x as int,
                    block_y as int,
                    16,
                );
                if j < i {
                    lemma_block_ranges_disjoint(
                        f as int,
                        2 * (x as int) + j % 2,
                        2 * (y as int) + j / 2,
                        xb,
                        yb,
                        block_x as int,
                        block_y as int,
                        16,
                    );
                    let xbj = 2 * (x as int) + j % 2;
                    let ybj = 2 * (y as int) + j / 2;
                    assert(0 <= offj && offj + 16 <= result@.len()) by (nonlinear_arith)
                        requires
                            offj == (f as int) * ((block_y as int) * ((block_x as int) * 16))
                                + ybj * ((block_x as int) * 16) + xbj * 16,
                            0 <= xbj < block_x as int,
                            0 <= ybj < block_y as int,
                            0 <= f < face,
                            result@.len() == ((block_y as int) * ((block_x as int) * 16)) * (
                            face as int),
                    ;
                    assert forall|p: int| offj <= p < offj + 16 implies result@[p] == res0[p] by {}
                    assert(result@.subrange(offj, offj + 16) =~= res0.subrange(offj, offj + 16));
                }
            }
            assert forall|p: int| pos <= p < pos + 16 implies spec_chunk_writes_at(
                p,
                f as int,
                x as int,
                y as int,
                block_x as int,
                block_y as int,
                16,
            ) by {
                assert(0 <= (i as int) < 4 && 2 * (x as int) + (i as int) % 2 < block_x && 2 * (
                y as int) + (i as int) / 2 < block_y && spec_block_offset(
                    f as int,
                    xb,
                    yb,
                    block_x as int,
                    block_y as int,
                    16,
                ) <= p < spec_block_offset(
                    f as int,
                    xb,
                    yb,
                    block_x as int,
                    block_y as int,
                    16,
                ) + 16);
            }
            assert forall|p: int|
                0 <= p < res_old.len() && !spec_chunk_writes_at(
                    p,
                    f as int,
                    x as int,
                    y as int,
                    block_x as int,
                    block_y as int,
                    16,
                ) implies result@[p] == res_old[p] by {
                if pos <= p < pos + 16 {
                    assert(spec_chunk_writes_at(
                        p,
                        f as int,
                        x as int,
                        y as int,
                        block_x as int,
                        block_y as int,
                        16,
                    ));
                }
            }
        }
    } else {
        proof {
            if skip_x && i % 2 == 1 {
                lemma_clip_outside(block_x as int, x as int);
            }
            if skip_y && i >= 2 {
                lemma_clip_outside(block_y as int, y as int);
            }
        }
    }
    Ok(())
}

/// Decode one chunk of a DXT5 level and write its unclipped blocks:
/// read the tile structure, the per-tile endpoints, then per block
/// position the selectors, placing each block kept by the clipping rule
/// at its raster offset in `result`.
#[verifier::loop_isolation(false)]
#[verifier::rlimit(100)]
#[verifier::spinoff_prover]
fn unpack_chunk_dxt5(
    tables: &Tables,
    codec: &mut Codec,
    cur: &mut UnpackCursors,
    result: &mut Vec<u8>,
    f: usize,
    x: usize,
    y: usize,
    block_x: usize,
    block_y: usize,
    face: u8,
) -> (r: Result<(), Error>)
    requires
        tables.wf(),
        old(codec).wf(),
        old(cur).ok(*tables),
        f < face,
        block_x <= 16384,
        block_y <= 16384,
        x < (block_x + 1) as int / 2,
        y < (block_y + 1) as int / 2,
        old(result)@.len() == (block_y * (block_x * 16)) * (face as int),
    ensures
        final(codec).wf(),
        final(codec).bytes() == old(codec).bytes(),
        final(cur).ok(*tables),
        final(result)@.len() == old(result)@.len(),
        forall|p: int|
            0 <= p < old(result)@.len() && !spec_chunk_writes_at(
                p,
                f as int,
                x as int,
                y as int,
                block_x as int,
                block_y as int,
                16,
            ) ==> final(result)@[p] == old(result)@[p],
        match r {
            Ok(_) => spec_chunk_step(
                *tables,
                old(codec).bytes(),
                old(cur).state(old(codec).bit_index()),
                BlockFormat::Dxt5,
            ) == Some(final(cur).state(final(codec).bit_index())) && spec_dxt5_content(
                *tables,
                old(codec).bytes(),
                old(cur).state(old(codec).bit_index()),
                f as int,
                x as int,
                y as int,
                block_x as int,
                block_y as int,
                final(result)@,
            ),
            Err(_) => spec_chunk_step(
                *tables,
                old(codec).bytes(),
                old(cur).state(old(codec).bit_index()),
                BlockFormat::Dxt5,
            ) is None,
        },
{
    let ghost b = old(codec).bytes();
    let skip_y = y == (block_y + 1) / TRUNK_SIZE - 1 && block_y % 2 == 1;
    let skip_x = block_x % 2 == 1 && x == (block_x + 1) / TRUNK_SIZE - 1;

    let mut tile_bits = cur.tile_bits;
    let (tiles_count, tls) = match next_tile_idx(codec, &tables.chunk_encoding, &mut tile_bits) {
        Ok(ct) => ct,
        Err(e) => { return Err(e) },
    };
    cur.tile_bits = tile_bits;
    let ghost idx1 = codec.bit_index();
    let ghost tb_done = cur.tile_bits;
    let ghost g_ti = spec_next_tile(
        tables.chunk_encoding.depths(),
        b,
        old(codec).bit_index(),
        old(cur).tile_bits,
    )->Some_0.0;

    let mut alpha0_endpoints: Vec<(u8, u8)> = vec![(0u8, 0u8); 4];
    {
        let mut i: usize = 0;
        while i < tiles_count
            invariant
                codec.wf(),
                codec.bytes() == b,
                i <= tiles_count,
                cur.ok(*tables),
                cur.tile_bits == tb_done,
                cur.color_endpoint == old(cur).color_endpoint,
                cur.color_selector == old(cur).color_selector,
                cur.alpha0_selector == old(cur).alpha0_selector,
                cur.alpha1_endpoint == old(cur).alpha1_endpoint,
                cur.alpha1_selector == old(cur).alpha1_selector,
                alpha0_endpoints@.len() == 4,
                result@.len() == old(result)@.len(),
                spec_n_nexts(
                    tables.alpha_endpoint.delta.depths(),
                    tables.alpha_endpoint.entries@.len(),
                    b,
                    codec.bit_index(),
                    cur.alpha0_endpoint as nat,
                    (tiles_count - i) as nat,
                ) == spec_n_nexts(
                    tables.alpha_endpoint.delta.depths(),
                    tables.alpha_endpoint.entries@.len(),
                    b,
                    idx1,
                    old(cur).alpha0_endpoint as nat,
                    tiles_count as nat,
                ),
                spec_n_nexts(
                    tables.alpha_endpoint.delta.depths(),
                    tables.alpha_endpoint.entries@.len(),
                    b,
                    idx1,
                    old(cur).alpha0_endpoint as nat,
                    i as nat,
                ) == Some((codec.bit_index(), cur.alpha0_endpoint as nat)),
                forall|k: int|
                    0 <= k < i ==> (#[trigger] spec_n_nexts(
                        tables.alpha_endpoint.delta.depths(),
                        tables.alpha_endpoint.entries@.len(),
                        b,
                        idx1,
                        old(cur).alpha0_endpoint as nat,
                        (k + 1) as nat,
                    ) matches Some(pr) && alpha0_endpoints@[k]
                        == tables.alpha_endpoint.entries@[pr.1 as int]),
            decreases tiles_count - i,
        {
            let mut c = cur.alpha0_endpoint;
            let e = match tables.alpha_endpoint.next(codec, &mut c) {
                Ok(v) => v,
                Err(e) => { return Err(e) },
            };
            cur.alpha0_endpoint = c;
            alpha0_endpoints[i] = e;
            proof {
                lemma_n_nexts_snoc(
                    tables.alpha_endpoint.delta.depths(),
                    tables.alpha_endpoint.entries@.len(),
                    b,
                    idx1,
                    old(cur).alpha0_endpoint as nat,
                    i as nat,
                );
            }
            i = i + 1;
        }
    }
    let ghost idx_a0 = codec.bit_index();
    let ghost a0e_done = cur.alpha0_endpoint;

    let mut color_endpoints: Vec<(u16, u16)> = vec![(0u16, 0u16); 4];
    {
        let mut i: usize = 0;
        while i < tiles_count
            invariant
                codec.wf(),
                codec.bytes() == b,
                i <= tiles_count,
                cur.ok(*tables),
                cur.tile_bits == tb_done,
                cur.color_selector == old(cur).color_selector,
                cur.alpha0_endpoint == a0e_done,
                cur.alpha0_selector == old(cur).alpha0_selector,
                cur.alpha1_endpoint == old(cur).alpha1_endpoint,
                cur.alpha1_selector == old(cur).alpha1_selector,
                color_endpoints@.len() == 4,
                result@.len() == old(result)@.len(),
                spec_n_nexts(
                    tables.color_endpoint.delta.depths(),
                    tables.color_endpoint.entries@.len(),
                    b,
                    codec.bit_index(),
                    cur.color_endpoint as nat,
                    (tiles_count - i) as nat,
                ) == spec_n_nexts(
                    tables.color_endpoint.delta.depths(),
                    tables.color_endpoint.entries@.len(),
                    b,
                    idx_a0,
                    old(cur).color_endpoint as nat,
                    tiles_count as nat,
                ),
                spec_n_nexts(
                    tables.color_endpoint.delta.depths(),
                    tables.color_endpoint.entries@.len(),
                    b,
                    idx_a0,
                    old(cur).color_endpoint as nat,
                    i as nat,
                ) == Some((codec.bit_index(), cur.color_endpoint as nat)),
                forall|k: int|
                    0 <= k < i ==> (#[trigger] spec_n_nexts(
                        tables.color_endpoint.delta.depths(),
                        tables.color_endpoint.entries@.len(),
                        b,
                        idx_a0,
                        old(cur).color_endpoint as nat,
                        (k + 1) as nat,
                    ) matches Some(pr) && color_endpoints@[k]
                        == tables.color_endpoint.entries@[pr.1 as int]),
            decreases tiles_count - i,
        {
            let mut c = cur.color_endpoint;
            let e = match tables.color_endpoint.next(codec, &mut c) {
                Ok(v) => v,
                Err(e) => { return Err(e) },
            };
            cur.color_endpoint = c;
            color_endpoints[i] = e;
            proof {
                lemma_n_nexts_snoc(
                    tables.color_endpoint.delta.depths(),
                    tables.color_endpoint.entries@.len(),
                    b,
                    idx_a0,
                    old(cur).color_endpoint as nat,
                    i as nat,
                );
            }
            i = i + 1;
        }
    }
    let ghost idx_ce = codec.bit_index();
    let ghost ce_done = cur.color_endpoint;
    let ghost st0 = old(cur).state(old(codec).bit_index());

    let mut i: usize = 0;
    while i < 4
        invariant
            codec.wf(),
            codec.bytes() == b,
            i <= 4,
            cur.ok(*tables),
            cur.tile_bits == tb_done,
            cur.color_endpoint == ce_done,
            cur.alpha0_endpoint == a0e_done,
            cur.alpha1_endpoint == old(cur).alpha1_endpoint,
            cur.alpha1_selector == old(cur).alpha1_selector,
            result@.len() == old(result)@.len(),
            spec_sel_pairs(
                tables.alpha_selector.delta.depths(),
                tables.alpha_selector.entries@.len(),
                tables.color_selector.delta.depths(),
                tables.color_selector.entries@.len(),
                b,
                idx_ce,
                st0.alpha0_selector,
                st0.color_selector,
                i as nat,
            ) == Some((codec.bit_index(), cur.alpha0_selector as nat, cur.color_selector as nat)),
            spec_sel_pairs(
                tables.alpha_selector.delta.depths(),
                tables.alpha_selector.entries@.len(),
                tables.color_selector.delta.depths(),
                tables.color_selector.entries@.len(),
                b,
                codec.bit_index(),
                cur.alpha0_selector as nat,
                cur.color_selector as nat,
                (4 - i) as nat,
            ) == spec_sel_pairs(
                tables.alpha_selector.delta.depths(),
                tables.alpha_selector.entries@.len(),
                tables.color_selector.delta.depths(),
                tables.color_selector.entries@.len(),
                b,
                idx_ce,
                st0.alpha0_selector,
                st0.color_selector,
                4,
            ),
            forall|j: int|
                0 <= j < i && 2 * (x as int) + #[trigger] (j % 2) < block_x && 2 * (y as int) + j
                    / 2 < block_y ==> spec_dxt5_pos_ok(
                    *tables,
                    b,
                    st0,
                    g_ti,
                    idx1,
                    idx_a0,
                    idx_ce,
                    f as int,
                    x as int,
                    y as int,
                    block_x as int,
                    block_y as int,
                    j,
                    result@,
                ),
            forall|p: int|
                0 <= p < old(result)@.len() && !spec_chunk_writes_at(
                    p,
                    f as int,
                    x as int,
                    y as int,
                    block_x as int,
                    block_y as int,
                    16,
                ) ==> result@[p] == old(result)@[p],
        decreases 4 - i,
    {
        match dxt5_position_step(
            tables,
            codec,
            cur,
            result,
            &alpha0_endpoints,
            &color_endpoints,
            &tls,
            i,
            f,
            x,
            y,
            block_x,
            block_y,
            face,
            skip_x,
            skip_y,
            Ghost(b),
            Ghost(st0),
            Ghost(g_ti),
            Ghost(idx1),
            Ghost(idx_a0),
            Ghost(idx_ce),
            Ghost(old(result)@),
        ) {
            Ok(_) => {},
            Err(e) => { return Err(e) },
        }
        i = i + 1;
    }
    proof {
        assert(spec_dxt5_content(
            *tables,
            b,
            st0,
            f as int,
            x as int,
            y as int,
            block_x as int,
            block_y as int,
            result@,
        ));
    }
    Ok(())
}
/// The wire bytes of a DXT5A block, as a sequence.
pub open spec fn spec_dxt5a_bytes(ep: (u8, u8), sel: [u8; 6]) -> Seq<u8> {
    seq![ep.0, ep.1, sel@[0], sel@[1], sel@[2], sel@[3], sel@[4], sel@[5]]
}

/// One DXT5A block position `j` of the chunk at `(x, y)` of face `f`
/// holds the block built from its tile's endpoint entry and its own
/// selector entry, at the block's raster offset. `idx1` and `idxs`
/// anchor the delta folds: after the tile read and after the endpoints.
pub open spec fn spec_dxt5a_pos_ok(
    t: Tables,
    bytes: Seq<u8>,
    st: UnpackState,
    ti: u32,
    idx1: nat,
    idxs: nat,
    f: int,
    x: int,
    y: int,
    block_x: int,
    block_y: int,
    j: int,
    buf: Seq<u8>,
) -> bool {
    spec_n_nexts(
        t.alpha_endpoint.delta.depths(),
        t.alpha_endpoint.entries@.len(),
        bytes,
        idx1,
        st.alpha0_endpoint,
        (spec_tile(ti as int, j) + 1) as nat,
    ) matches Some(ep) && (spec_n_nexts(
        t.alpha_selector.delta.depths(),
        t.alpha_selector.entries@.len(),
        bytes,
        idxs,
        st.alpha0_selector,
        (j + 1) as nat,
    ) matches Some(sel) && buf.subrange(
        spec_block_offset(f, 2 * x + j % 2, 2 * y + j / 2, block_x, block_y, 8),
        spec_block_offset(f, 2 * x + j % 2, 2 * y + j / 2, block_x, block_y, 8) + 8,
    ) == spec_dxt5a_bytes(
        t.alpha_endpoint.entries@[ep.1 as int],
        t.alpha_selector.entries@[sel.1 as int],
    ))
}

/// What a DXT5A chunk leaves in the buffer: every unclipped block
/// position holds its block, as `spec_dxt5a_pos_ok` states it.
pub open spec fn spec_dxt5a_content(
    t: Tables,
    bytes: Seq<u8>,
    st: UnpackState,
    f: int,
    x: int,
    y: int,
    block_x: int,
    block_y: int,
    buf: Seq<u8>,
) -> bool {
    spec_next_tile(t.chunk_encoding.depths(), bytes, st.idx, st.tile_bits) matches Some(
        (ti, tb2, idx1),
    ) && (spec_n_nexts(
        t.alpha_endpoint.delta.depths(),
        t.alpha_endpoint.entries@.len(),
        bytes,
        idx1,
        st.alpha0_endpoint,
        spec_count_tiles(ti as int),
    ) matches Some(epend) && (forall|j: int|
        0 <= j < 4 && 2 * x + #[trigger] (j % 2) < block_x && 2 * y + j / 2 < block_y
            ==> spec_dxt5a_pos_ok(
            t,
            bytes,
            st,
            ti,
            idx1,
            epend.0,
            f,
            x,
            y,
            block_x,
            block_y,
            j,
            buf,
        )))
}

/// One block position of a DXT5A chunk: read the selector, and write
/// the block unless clipping suppresses it.
#[verifier::loop_isolation(false)]
#[verifier::rlimit(100)]
#[verifier::spinoff_prover]
fn dxt5a_position_step(
    tables: &Tables,
    codec: &mut Codec,
    cur: &mut UnpackCursors,
    result: &mut Vec<u8>,
    endpoints: &Vec<(u8, u8)>,
    tls: &[usize; 4],
    i: usize,
    f: usize,
    x: usize,
    y: usize,
    block_x: usize,
    block_y: usize,
    face: u8,
    skip_x: bool,
    skip_y: bool,
    Ghost(b): Ghost<Seq<u8>>,
    Ghost(st0): Ghost<UnpackState>,
    Ghost(g_ti): Ghost<u32>,
    Ghost(idx1): Ghost<nat>,
    Ghost(idxs): Ghost<nat>,
    Ghost(res_old): Ghost<Seq<u8>>,
) -> (r: Result<(), Error>)
    requires
        tables.wf(),
        old(codec).wf(),
        old(cur).ok(*tables),
        b == old(codec).bytes(),
        i < 4,
        f < face,
        block_x <= 16384,
        block_y <= 16384,
        x < (block_x + 1) as int / 2,
        y < (block_y + 1) as int / 2,
        skip_y == (y == (block_y + 1) as int / 2 - 1 && block_y % 2 == 1),
        skip_x == (block_x % 2 == 1 && x == (block_x + 1) as int / 2 - 1),
        res_old.len() == (block_y * (block_x * 8)) * (face as int),
        old(result)@.len() == res_old.len(),
        spec_count_tiles(g_ti as int) <= 4,
        forall|p: int| 0 <= p < 4 ==> tls@[p] == spec_tile(g_ti as int, p),
        forall|p: int| 0 <= p < 4 ==> tls@[p] < spec_count_tiles(g_ti as int),
        endpoints@.len() == 4,
        forall|k: int|
            0 <= k < spec_count_tiles(g_ti as int) ==> (#[trigger] spec_n_nexts(
                tables.alpha_endpoint.delta.depths(),
                tables.alpha_endpoint.entries@.len(),
                b,
                idx1,
                st0.alpha0_endpoint,
                (k + 1) as nat,
            ) matches Some(pr) && endpoints@[k] == tables.alpha_endpoint.entries@[pr.1 as int]),
        spec_n_nexts(
            tables.alpha_selector.delta.depths(),
            tables.alpha_selector.entries@.len(),
            b,
            idxs,
            st0.alpha0_selector,
            i as nat,
        ) == Some((old(codec).bit_index(), old(cur).alpha0_selector as nat)),
        spec_n_nexts(
            tables.alpha_selector.delta.depths(),
            tables.alpha_selector.entries@.len(),
            b,
            old(codec).bit_index(),
            old(cur).alpha0_selector as nat,
            (4 - i) as nat,
        ) == spec_n_nexts(
            tables.alpha_selector.delta.depths(),
            tables.alpha_selector.entries@.len(),
            b,
            idxs,
            st0.alpha0_selector,
            4,
        ),
        forall|j: int|
            0 <= j < i && 2 * (x as int) + #[trigger] (j % 2) < block_x && 2 * (y as int) + j / 2
                < block_y ==> spec_dxt5a_pos_ok(
                *tables,
                b,
                st0,
                g_ti,
                idx1,
                idxs,
                f as int,
                x as int,
                y as int,
                block_x as int,
                block_y as int,
                j,
                old(result)@,
            ),
        forall|p: int|
            0 <= p < res_old.len() && !spec_chunk_writes_at(
                p,
                f as int,
                x as int,
                y as int,
                block_x as int,
                block_y as int,
                8,
            ) ==> old(result)@[p] == res_old[p],
    ensures
        final(codec).wf(),
        final(codec).bytes() == b,
        final(cur).ok(*tables),
        final(result)@.len() == old(result)@.len(),
        final(cur).tile_bits == old(cur).tile_bits,
        final(cur).color_endpoint == old(cur).color_endpoint,
        final(cur).alpha0_endpoint == old(cur).alpha0_endpoint,
        final(cur).alpha1_endpoint == old(cur).alpha1_endpoint,
        final(cur).alpha1_selector == old(cur).alpha1_selector,
        final(cur).color_selector == old(cur).color_selector,
        forall|p: int|
            0 <= p < res_old.len() && !spec_chunk_writes_at(
                p,
                f as int,
                x as int,
                y as int,
                block_x as int,
                block_y as int,
                8,
            ) ==> final(result)@[p] == res_old[p],
        match r {
            Ok(_) => {
                &&& spec_n_nexts(
                    tables.alpha_selector.delta.depths(),
                    tables.alpha_selector.entries@.len(),
                    b,
                    idxs,
                    st0.alpha0_selector,
                    (i + 1) as nat,
                ) == Some((final(codec).bit_index(), final(cur).alpha0_selector as nat))
                &&& spec_n_nexts(
                    tables.alpha_selector.delta.depths(),
                    tables.alpha_selector.entries@.len(),
                    b,
                    final(codec).bit_index(),
                    final(cur).alpha0_selector as nat,
                    (4 - i - 1) as nat,
                ) == spec_n_nexts(
                    tables.alpha_selector.delta.depths(),
                    tables.alpha_selector.entries@.len(),
                    b,
                    idxs,
                    st0.alpha0_selector,
                    4,
                )
                &&& (forall|j: int|
                    0 <= j < i + 1 && 2 * (x as int) + #[trigger] (j % 2) < block_x && 2 * (
                    y as int) + j / 2 < block_y ==> spec_dxt5a_pos_ok(
                        *tables,
                        b,
                        st0,
                        g_ti,
                        idx1,
                        idxs,
                        f as int,
                        x as int,
                        y as int,
                        block_x as int,
                        block_y as int,
                        j,
                        final(result)@,
                    ))
            },
            Err(_) => spec_n_nexts(
                tables.alpha_selector.delta.depths(),
                tables.alpha_selector.entries@.len(),
                b,
                idxs,
                st0.alpha0_selector,
                4,
            ) is None,
        },
{
    let bs: usize = 8;
    let tile = tls[i];
    let clip = (skip_x && i % 2 == 1) || (skip_y && i >= 2);
    proof {
        if !clip && block_x > 0 && block_y > 0 {
            lemma_block_in_range(block_x as int, x as int, (i % 2) as int);
            lemma_block_in_range(block_y as int, y as int, (i / 2) as int);
        }
        vstd::std_specs::vec::axiom_spec_len(result);
        assert(((f + 1) as int) * (block_y * (block_x * bs)) <= result@.len()) by (
        nonlinear_arith)
            requires
                f < face,
                result@.len() == (block_y * (block_x * bs)) * (face as int),
                0 <= block_y * (block_x * bs),
        ;
    }
    let mut cs = cur.alpha0_selector;
    let alpha_selector = match tables.alpha_selector.next(codec, &mut cs) {
        Ok(v) => v,
        Err(e) => { return Err(e) },
    };
    cur.alpha0_selector = cs;
    proof {
        lemma_n_nexts_snoc(
            tables.alpha_selector.delta.depths(),
            tables.alpha_selector.entries@.len(),
            b,
            idxs,
            st0.alpha0_selector,
            i as nat,
        );
    }
    if !clip {
        let pos = block_write_pos(f, y * 2 + i / 2, x * 2 + i % 2, block_x, block_y, bs);
        let bytes = (Dxt5A { alpha_endpoint: endpoints[tile], alpha_selector }).to_bytes();
        let ghost res0 = result@;
        write_block8(result, pos, &bytes);
        proof {
            let xb = 2 * (x as int) + (i as int) % 2;
            let yb = 2 * (y as int) + (i as int) / 2;
            assert(bytes@ =~= spec_dxt5a_bytes(endpoints@[tile as int], alpha_selector));
            assert(result@.subrange(pos as int, pos as int + 8) =~= bytes@);
            assert forall|j: int|
                0 <= j < i + 1 && 2 * (x as int) + #[trigger] (j % 2) < block_x && 2 * (
                y as int) + j / 2 < block_y implies spec_dxt5a_pos_ok(
                *tables,
                b,
                st0,
                g_ti,
                idx1,
                idxs,
                f as int,
                x as int,
                y as int,
                block_x as int,
                block_y as int,
                j,
                result@,
            ) by {
                let offj = spec_block_offset(
                    f as int,
                    2 * (x as int) + j % 2,
                    2 * (y as int) + j / 2,
                    block_x as int,
                    block_y as int,
                    8,
                );
                if j < i {
                    lemma_block_ranges_disjoint(
                        f as int,
                        2 * (x as int) + j % 2,
                        2 * (y as int) + j / 2,
                        xb,
                        yb,
                        block_x as int,
                        block_y as int,
                        8,
                    );
                    let xbj = 2 * (x as int) + j % 2;
                    let ybj = 2 * (y as int) + j / 2;
                    assert(0 <= offj && offj + 8 <= result@.len()) by (nonlinear_arith)
                        requires
                            offj == (f as int) * ((block_y as int) * ((block_x as int) * 8))
                                + ybj * ((block_x as int) * 8) + xbj * 8,
                            0 <= xbj < block_x as int,
                            0 <= ybj < block_y as int,
                            0 <= f < face,
                            result@.len() == ((block_y as int) * ((block_x as int) * 8)) * (
                            face as int),
                    ;
                    assert forall|p: int| offj <= p < offj + 8 implies result@[p] == res0[p] by {}
                    assert(result@.subrange(offj, offj + 8) =~= res0.subrange(offj, offj + 8));
                }
            }
            assert forall|p: int| pos <= p < pos + 8 implies spec_chunk_writes_at(
                p,
                f as int,
                x as int,
                y as int,
                block_x as int,
                block_y as int,
                8,
            ) by {
                assert(0 <= (i as int) < 4 && 2 * (x as int) + (i as int) % 2 < block_x && 2 * (
                y as int) + (i as int) / 2 < block_y && spec_block_offset(
                    f as int,
                    xb,
                    yb,
                    block_x as int,
                    block_y as int,
                    8,
                ) <= p < spec_block_offset(
                    f as int,
                    xb,
                    yb,
                    block_x as int,
                    block_y as int,
                    8,
                ) + 8);
            }
            assert forall|p: int|
                0 <= p < res_old.len() && !spec_chunk_writes_at(
                    p,
                    f as int,
                    x as int,
                    y as int,
                    block_x as int,
                    block_y as int,
                    8,
                ) implies result@[p] == res_old[p] by {
                if pos <= p < pos + 8 {
                    assert(spec_chunk_writes_at(
                        p,
                        f as int,
                        x as int,
                        y as int,
                        block_x as int,
                        block_y as int,
                        8,
                    ));
                }
            }
        }
    } else {
        proof {
            if skip_x && i % 2 == 1 {
                lemma_clip_outside(block_x as int, x as int);
            }
            if skip_y && i >= 2 {
                lemma_clip_outside(block_y as int, y as int);
            }
        }
    }
    Ok(())
}

/// A clipped block position of a chunk falls outside the block grid.
proof fn lemma_clip_outside(block: int, xy: int)
    requires
        0 < block,
        block % 2 == 1,
        xy == (block + 1) / 2 - 1,
    ensures
        2 * xy + 1 >= block,
{
    vstd::arithmetic::div_mod::lemma_fundamental_div_mod(block + 1, 2);
    vstd::arithmetic::div_mod::lemma_fundamental_div_mod(block, 2);
}

/// Decode one chunk of a DXT5A level and write its unclipped blocks:
/// read the tile structure, the per-tile endpoints, then per block
/// position the selectors, placing each block kept by the clipping rule
/// at its raster offset in `result`.
#[verifier::loop_isolation(false)]
#[verifier::rlimit(100)]
#[verifier::spinoff_prover]
fn unpack_chunk_dxt5a(
    tables: &Tables,
    codec: &mut Codec,
    cur: &mut UnpackCursors,
    result: &mut Vec<u8>,
    f: usize,
    x: usize,
    y: usize,
    block_x: usize,
    block_y: usize,
    face: u8,
) -> (r: Result<(), Error>)
    requires
        tables.wf(),
        old(codec).wf(),
        old(cur).ok(*tables),
        f < face,
        block_x <= 16384,
        block_y <= 16384,
        x < (block_x + 1) as int / 2,
        y < (block_y + 1) as int / 2,
        old(result)@.len() == (block_y * (block_x * 8)) * (face as int),
    ensures
        final(codec).wf(),
        final(codec).bytes() == old(codec).bytes(),
        final(cur).ok(*tables),
        final(result)@.len() == old(result)@.len(),
        forall|p: int|
            0 <= p < old(result)@.len() && !spec_chunk_writes_at(
                p,
                f as int,
                x as int,
                y as int,
                block_x as int,
                block_y as int,
                8,
            ) ==> final(result)@[p] == old(result)@[p],
        match r {
            Ok(_) => spec_chunk_step(
                *tables,
                old(codec).bytes(),
                old(cur).state(old(codec).bit_index()),
                BlockFormat::Dxt5A,
            ) == Some(final(cur).state(final(codec).bit_index())) && spec_dxt5a_content(
                *tables,
                old(codec).bytes(),
                old(cur).state(old(codec).bit_index()),
                f as int,
                x as int,
                y as int,
                block_x as int,
                block_y as int,
                final(result)@,
            ),
            Err(_) => spec_chunk_step(
                *tables,
                old(codec).bytes(),
                old(cur).state(old(codec).bit_index()),
                BlockFormat::Dxt5A,
            ) is None,
        },
{
    let ghost b = old(codec).bytes();
    let bs: usize = 8;
    let skip_y = y == (block_y + 1) / TRUNK_SIZE - 1 && block_y % 2 == 1;
    let skip_x = block_x % 2 == 1 && x == (block_x + 1) / TRUNK_SIZE - 1;

    let mut tile_bits = cur.tile_bits;
    let (tiles_count, tls) = match next_tile_idx(codec, &tables.chunk_encoding, &mut tile_bits) {
        Ok(ct) => ct,
        Err(e) => { return Err(e) },
    };
    cur.tile_bits = tile_bits;
    let ghost idx1 = codec.bit_index();
    let ghost tb_done = cur.tile_bits;
    let ghost g_ti = spec_next_tile(
        tables.chunk_encoding.depths(),
        b,
        old(codec).bit_index(),
        old(cur).tile_bits,
    )->Some_0.0;

    let mut alpha0_endpoints: Vec<(u8, u8)> = vec![(0u8, 0u8); 4];
    {
        let mut i: usize = 0;
        while i < tiles_count
            invariant
                codec.wf(),
                codec.bytes() == b,
                i <= tiles_count,
                cur.ok(*tables),
                cur.tile_bits == tb_done,
                cur.color_endpoint == old(cur).color_endpoint,
                cur.color_selector == old(cur).color_selector,
                cur.alpha0_selector == old(cur).alpha0_selector,
                cur.alpha1_endpoint == old(cur).alpha1_endpoint,
                cur.alpha1_selector == old(cur).alpha1_selector,
                alpha0_endpoints@.len() == 4,
                result@.len() == old(result)@.len(),
                spec_n_nexts(
                    tables.alpha_endpoint.delta.depths(),
                    tables.alpha_endpoint.entries@.len(),
                    b,
                    codec.bit_index(),
                    cur.alpha0_endpoint as nat,
                    (tiles_count - i) as nat,
                ) == spec_n_nexts(
                    tables.alpha_endpoint.delta.depths(),
                    tables.alpha_endpoint.entries@.len(),
                    b,
                    idx1,
                    old(cur).alpha0_endpoint as nat,
                    tiles_count as nat,
                ),
                spec_n_nexts(
                    tables.alpha_endpoint.delta.depths(),
                    tables.alpha_endpoint.entries@.len(),
                    b,
                    idx1,
                    old(cur).alpha0_endpoint as nat,
                    i as nat,
                ) == Some((codec.bit_index(), cur.alpha0_endpoint as nat)),
                forall|k: int|
                    0 <= k < i ==> (#[trigger] spec_n_nexts(
                        tables.alpha_endpoint.delta.depths(),
                        tables.alpha_endpoint.entries@.len(),
                        b,
                        idx1,
                        old(cur).alpha0_endpoint as nat,
                        (k + 1) as nat,
                    ) matches Some(pr) && alpha0_endpoints@[k]
                        == tables.alpha_endpoint.entries@[pr.1 as int]),
            decreases tiles_count - i,
        {
            let ghost c_before = cur.alpha0_endpoint as nat;
            let ghost i_before = codec.bit_index();
            let mut c = cur.alpha0_endpoint;
            let e = match tables.alpha_endpoint.next(codec, &mut c) {
                Ok(v) => v,
                Err(e) => { return Err(e) },
            };
            cur.alpha0_endpoint = c;
            alpha0_endpoints[i] = e;
            proof {
                lemma_n_nexts_snoc(
                    tables.alpha_endpoint.delta.depths(),
                    tables.alpha_endpoint.entries@.len(),
                    b,
                    idx1,
                    old(cur).alpha0_endpoint as nat,
                    i as nat,
                );
            }
            i = i + 1;
        }
    }
    let ghost idx_a0 = codec.bit_index();
    let ghost a0e_done = cur.alpha0_endpoint;

    let ghost st0 = old(cur).state(old(codec).bit_index());
    let mut i: usize = 0;
    while i < 4
        invariant
            codec.wf(),
            codec.bytes() == b,
            i <= 4,
            cur.ok(*tables),
            cur.tile_bits == tb_done,
            cur.color_endpoint == old(cur).color_endpoint,
            cur.color_selector == old(cur).color_selector,
            cur.alpha0_endpoint == a0e_done,
            cur.alpha1_endpoint == old(cur).alpha1_endpoint,
            cur.alpha1_selector == old(cur).alpha1_selector,
            result@.len() == old(result)@.len(),
            spec_n_nexts(
                tables.alpha_selector.delta.depths(),
                tables.alpha_selector.entries@.len(),
                b,
                idx_a0,
                st0.alpha0_selector,
                i as nat,
            ) == Some((codec.bit_index(), cur.alpha0_selector as nat)),
            spec_n_nexts(
                tables.alpha_selector.delta.depths(),
                tables.alpha_selector.entries@.len(),
                b,
                codec.bit_index(),
                cur.alpha0_selector as nat,
                (4 - i) as nat,
            ) == spec_n_nexts(
                tables.alpha_selector.delta.depths(),
                tables.alpha_selector.entries@.len(),
                b,
                idx_a0,
                st0.alpha0_selector,
                4,
            ),
            forall|j: int|
                0 <= j < i && 2 * (x as int) + #[trigger] (j % 2) < block_x && 2 * (y as int) + j
                    / 2 < block_y ==> spec_dxt5a_pos_ok(
                    *tables,
                    b,
                    st0,
                    g_ti,
                    idx1,
                    idx_a0,
                    f as int,
                    x as int,
                    y as int,
                    block_x as int,
                    block_y as int,
                    j,
                    result@,
                ),
            forall|p: int|
                0 <= p < old(result)@.len() && !spec_chunk_writes_at(
                    p,
                    f as int,
                    x as int,
                    y as int,
                    block_x as int,
                    block_y as int,
                    8,
                ) ==> result@[p] == old(result)@[p],
        decreases 4 - i,
    {
        match dxt5a_position_step(
            tables,
            codec,
            cur,
            result,
            &alpha0_endpoints,
            &tls,
            i,
            f,
            x,
            y,
            block_x,
            block_y,
            face,
            skip_x,
            skip_y,
            Ghost(b),
            Ghost(st0),
            Ghost(g_ti),
            Ghost(idx1),
            Ghost(idx_a0),
            Ghost(old(result)@),
        ) {
            Ok(_) => {},
            Err(e) => { return Err(e) },
        }
        i = i + 1;
    }
    proof {
        assert(spec_dxt5a_content(
            *tables,
            b,
            st0,
            f as int,
            x as int,
            y as int,
            block_x as int,
            block_y as int,
            result@,
        ));
    }
    Ok(())
}

/// The wire bytes of a DXN block, as a sequence.
pub open spec fn spec_dxn_bytes(ae0: (u8, u8), asel0: [u8; 6], ae1: (u8, u8), asel1: [u8; 6]) -> Seq<
    u8,
> {
    seq![
        ae0.0,
        ae0.1,
        asel0@[0],
        asel0@[1],
        asel0@[2],
        asel0@[3],
        asel0@[4],
        asel0@[5],
        ae1.0,
        ae1.1,
        asel1@[0],
        asel1@[1],
        asel1@[2],
        asel1@[3],
        asel1@[4],
        asel1@[5],
    ]
}

/// One DXN block position `j` of the chunk at `(x, y)` of face `f`
/// holds the block built from its tile's alpha and color endpoint
/// entries and its own pair of selector entries, at the block's raster
/// offset. `idx1`, `idxa` and `idxc` anchor the delta folds: after the
/// tile read, after the alpha endpoints, and after the color endpoints.
pub open spec fn spec_dxn_pos_ok(
    t: Tables,
    bytes: Seq<u8>,
    st: UnpackState,
    ti: u32,
    idx1: nat,
    idxa: nat,
    idxc: nat,
    f: int,
    x: int,
    y: int,
    block_x: int,
    block_y: int,
    j: int,
    buf: Seq<u8>,
) -> bool {
    spec_n_nexts(
        t.alpha_endpoint.delta.depths(),
        t.alpha_endpoint.entries@.len(),
        bytes,
        idx1,
        st.alpha0_endpoint,
        (spec_tile(ti as int, j) + 1) as nat,
    ) matches Some(aep) && (spec_n_nexts(
        t.alpha_endpoint.delta.depths(),
        t.alpha_endpoint.entries@.len(),
        bytes,
        idxa,
        st.alpha1_endpoint,
        (spec_tile(ti as int, j) + 1) as nat,
    ) matches Some(cep) && (spec_sel_pairs(
        t.alpha_selector.delta.depths(),
        t.alpha_selector.entries@.len(),
        t.alpha_selector.delta.depths(),
        t.alpha_selector.entries@.len(),
        bytes,
        idxc,
        st.alpha0_selector,
        st.alpha1_selector,
        (j + 1) as nat,
    ) matches Some(selp) && buf.subrange(
        spec_block_offset(f, 2 * x + j % 2, 2 * y + j / 2, block_x, block_y, 16),
        spec_block_offset(f, 2 * x + j % 2, 2 * y + j / 2, block_x, block_y, 16) + 16,
    ) == spec_dxn_bytes(
        t.alpha_endpoint.entries@[aep.1 as int],
        t.alpha_selector.entries@[selp.1 as int],
        t.alpha_endpoint.entries@[cep.1 as int],
        t.alpha_selector.entries@[selp.2 as int],
    )))
}

/// What a DXN chunk leaves in the buffer: every unclipped block
/// position holds its block, as `spec_dxn_pos_ok` states it.
pub open spec fn spec_dxn_content(
    t: Tables,
    bytes: Seq<u8>,
    st: UnpackState,
    f: int,
    x: int,
    y: int,
    block_x: int,
    block_y: int,
    buf: Seq<u8>,
) -> bool {
    spec_next_tile(t.chunk_encoding.depths(), bytes, st.idx, st.tile_bits) matches Some(
        (ti, tb2, idx1),
    ) && (spec_n_nexts(
        t.alpha_endpoint.delta.depths(),
        t.alpha_endpoint.entries@.len(),
        bytes,
        idx1,
        st.alpha0_endpoint,
        spec_count_tiles(ti as int),
    ) matches Some(aend) && (spec_n_nexts(
        t.alpha_endpoint.delta.depths(),
        t.alpha_endpoint.entries@.len(),
        bytes,
        aend.0,
        st.alpha1_endpoint,
        spec_count_tiles(ti as int),
    ) matches Some(cend) && (forall|j: int|
        0 <= j < 4 && 2 * x + #[trigger] (j % 2) < block_x && 2 * y + j / 2 < block_y
            ==> spec_dxn_pos_ok(
            t,
            bytes,
            st,
            ti,
            idx1,
            aend.0,
            cend.0,
            f,
            x,
            y,
            block_x,
            block_y,
            j,
            buf,
        ))))
}

/// After one DXN block write, every earlier block of the chunk keeps its
/// bytes, and nothing outside the chunk's blocks has changed.
#[verifier::rlimit(100)]
#[verifier::spinoff_prover]
proof fn lemma_dxn_write_ok(
    t: Tables,
    b: Seq<u8>,
    st0: UnpackState,
    g_ti: u32,
    idx1: nat,
    idx_a0: nat,
    idx_a1: nat,
    f: int,
    x: int,
    y: int,
    block_x: int,
    block_y: int,
    face: int,
    i: int,
    pos: int,
    res_old: Seq<u8>,
    res0: Seq<u8>,
    res1: Seq<u8>,
)
    requires
        0 <= i < 4,
        0 <= f < face,
        block_x <= 16384,
        block_y <= 16384,
        2 * x + i % 2 < block_x,
        2 * y + i / 2 < block_y,
        0 <= x,
        0 <= y,
        res_old.len() == (block_y * (block_x * 16)) * face,
        res0.len() == res_old.len(),
        res1.len() == res0.len(),
        pos == spec_block_offset(f, 2 * x + i % 2, 2 * y + i / 2, block_x, block_y, 16),
        forall|p: int| 0 <= p < res0.len() && !(pos <= p < pos + 16) ==> res1[p] == res0[p],
        forall|j: int|
            0 <= j < i && 2 * x + #[trigger] (j % 2) < block_x && 2 * y + j / 2 < block_y
                ==> spec_dxn_pos_ok(
                t,
                b,
                st0,
                g_ti,
                idx1,
                idx_a0,
                idx_a1,
                f,
                x,
                y,
                block_x,
                block_y,
                j,
                res0,
            ),
        forall|p: int|
            0 <= p < res_old.len() && !spec_chunk_writes_at(p, f, x, y, block_x, block_y, 16)
                ==> res0[p] == res_old[p],
    ensures
        forall|j: int|
            0 <= j < i && 2 * x + #[trigger] (j % 2) < block_x && 2 * y + j / 2 < block_y
                ==> spec_dxn_pos_ok(
                t,
                b,
                st0,
                g_ti,
                idx1,
                idx_a0,
                idx_a1,
                f,
                x,
                y,
                block_x,
                block_y,
                j,
                res1,
            ),
        forall|p: int|
            0 <= p < res_old.len() && !spec_chunk_writes_at(p, f, x, y, block_x, block_y, 16)
                ==> res1[p] == res_old[p],
{
    let xb = 2 * x + i % 2;
    let yb = 2 * y + i / 2;
    assert forall|j: int|
        0 <= j < i && 2 * x + #[trigger] (j % 2) < block_x && 2 * y + j / 2
            < block_y implies spec_dxn_pos_ok(
        t,
        b,
        st0,
        g_ti,
        idx1,
        idx_a0,
        idx_a1,
        f,
        x,
        y,
        block_x,
        block_y,
        j,
        res1,
    ) by {
        let xbj = 2 * x + j % 2;
        let ybj = 2 * y + j / 2;
        let offj = spec_block_offset(f, xbj, ybj, block_x, block_y, 16);
        lemma_block_ranges_disjoint(f, xbj, ybj, xb, yb, block_x, block_y, 16);
        assert(0 <= offj && offj + 16 <= res0.len()) by (nonlinear_arith)
            requires
                offj == f * (block_y * (block_x * 16)) + ybj * (block_x * 16) + xbj * 16,
                0 <= xbj < block_x,
                0 <= ybj < block_y,
                0 <= f < face,
                res0.len() == (block_y * (block_x * 16)) * face,
        ;
        assert forall|p: int| offj <= p < offj + 16 implies res1[p] == res0[p] by {}
        assert(res1.subrange(offj, offj + 16) =~= res0.subrange(offj, offj + 16));
    }
    assert forall|p: int| pos <= p < pos + 16 implies spec_chunk_writes_at(
        p,
        f,
        x,
        y,
        block_x,
        block_y,
        16,
    ) by {
        assert(0 <= i < 4 && 2 * x + i % 2 < block_x && 2 * y + i / 2 < block_y
            && spec_block_offset(f, 2 * x + i % 2, 2 * y + i / 2, block_x, block_y, 16) <= p
            < spec_block_offset(f, 2 * x + i % 2, 2 * y + i / 2, block_x, block_y, 16) + 16);
    }
}

/// One block position of a DXN chunk: read the alpha and color
/// selectors, and write the block unless clipping suppresses it.
#[verifier::loop_isolation(false)]
#[verifier::rlimit(100)]
#[verifier::spinoff_prover]
fn dxn_position_step(
    tables: &Tables,
    codec: &mut Codec,
    cur: &mut UnpackCursors,
    result: &mut Vec<u8>,
    alpha0_endpoints: &Vec<(u8, u8)>,
    alpha1_endpoints: &Vec<(u8, u8)>,
    tls: &[usize; 4],
    i: usize,
    f: usize,
    x: usize,
    y: usize,
    block_x: usize,
    block_y: usize,
    face: u8,
    skip_x: bool,
    skip_y: bool,
    Ghost(b): Ghost<Seq<u8>>,
    Ghost(st0): Ghost<UnpackState>,
    Ghost(g_ti): Ghost<u32>,
    Ghost(idx1): Ghost<nat>,
    Ghost(idx_a0): Ghost<nat>,
    Ghost(idx_a1): Ghost<nat>,
    Ghost(res_old): Ghost<Seq<u8>>,
) -> (r: Result<(), Error>)
    requires
        tables.wf(),
        old(codec).wf(),
        old(cur).ok(*tables),
        b == old(codec).bytes(),
        i < 4,
        f < face,
        block_x <= 16384,
        block_y <= 16384,
        x < (block_x + 1) as int / 2,
        y < (block_y + 1) as int / 2,
        skip_y == (y == (block_y + 1) as int / 2 - 1 && block_y % 2 == 1),
        skip_x == (block_x % 2 == 1 && x == (block_x + 1) as int / 2 - 1),
        res_old.len() == (block_y * (block_x * 16)) * (face as int),
        old(result)@.len() == res_old.len(),
        spec_count_tiles(g_ti as int) <= 4,
        forall|p: int| 0 <= p < 4 ==> tls@[p] == spec_tile(g_ti as int, p),
        forall|p: int| 0 <= p < 4 ==> tls@[p] < spec_count_tiles(g_ti as int),
        alpha0_endpoints@.len() == 4,
        alpha1_endpoints@.len() == 4,
        forall|k: int|
            0 <= k < spec_count_tiles(g_ti as int) ==> (#[trigger] spec_n_nexts(
                tables.alpha_endpoint.delta.depths(),
                tables.alpha_endpoint.entries@.len(),
                b,
                idx1,
                st0.alpha0_endpoint,
                (k + 1) as nat,
            ) matches Some(pr) && alpha0_endpoints@[k]
                == tables.alpha_endpoint.entries@[pr.1 as int]),
        forall|k: int|
            0 <= k < spec_count_tiles(g_ti as int) ==> (#[trigger] spec_n_nexts(
                tables.alpha_endpoint.delta.depths(),
                tables.alpha_endpoint.entries@.len(),
                b,
                idx_a0,
                st0.alpha1_endpoint,
                (k + 1) as nat,
            ) matches Some(pr) && alpha1_endpoints@[k]
                == tables.alpha_endpoint.entries@[pr.1 as int]),
        spec_sel_pairs(
            tables.alpha_selector.delta.depths(),
            tables.alpha_selector.entries@.len(),
            tables.alpha_selector.delta.depths(),
            tables.alpha_selector.entries@.len(),
            b,
            idx_a1,
            st0.alpha0_selector,
            st0.alpha1_selector,
            i as nat,
        ) == Some(
            (
                old(codec).bit_index(),
                old(cur).alpha0_selector as nat,
                old(cur).alpha1_selector as nat,
            ),
        ),
        spec_sel_pairs(
            tables.alpha_selector.delta.depths(),
            tables.alpha_selector.entries@.len(),
            tables.alpha_selector.delta.depths(),
            tables.alpha_selector.entries@.len(),
            b,
            old(codec).bit_index(),
            old(cur).alpha0_selector as nat,
            old(cur).alpha1_selector as nat,
            (4 - i) as nat,
        ) == spec_sel_pairs(
            tables.alpha_selector.delta.depths(),
            tables.alpha_selector.entries@.len(),
            tables.alpha_selector.delta.depths(),
            tables.alpha_selector.entries@.len(),
            b,
            idx_a1,
            st0.alpha0_selector,
            st0.alpha1_selector,
            4,
        ),
        forall|j: int|
            0 <= j < i && 2 * (x as int) + #[trigger] (j % 2) < block_x && 2 * (y as int) + j / 2
                < block_y ==> spec_dxn_pos_ok(
                *tables,
                b,
                st0,
                g_ti,
                idx1,
                idx_a0,
                idx_a1,
                f as int,
                x as int,
                y as int,
                block_x as int,
                block_y as int,
                j,
                old(result)@,
            ),
        forall|p: int|
            0 <= p < res_old.len() && !spec_chunk_writes_at(
                p,
                f as int,
                x as int,
                y as int,
                block_x as int,
                block_y as int,
                16,
            ) ==> old(result)@[p] == res_old[p],
    ensures
        final(codec).wf(),
        final(codec).bytes() == b,
        final(cur).ok(*tables),
        final(result)@.len() == old(result)@.len(),
        final(cur).tile_bits == old(cur).tile_bits,
        final(cur).color_endpoint == old(cur).color_endpoint,
        final(cur).color_selector == old(cur).color_selector,
        final(cur).alpha0_endpoint == old(cur).alpha0_endpoint,
        final(cur).alpha1_endpoint == old(cur).alpha1_endpoint,
        forall|p: int|
            0 <= p < res_old.len() && !spec_chunk_writes_at(
                p,
                f as int,
                x as int,
                y as int,
                block_x as int,
                block_y as int,
                16,
            ) ==> final(result)@[p] == res_old[p],
        match r {
            Ok(_) => {
                &&& spec_sel_pairs(
                    tables.alpha_selector.delta.depths(),
                    tables.alpha_selector.entries@.len(),
                    tables.alpha_selector.delta.depths(),
                    tables.alpha_selector.entries@.len(),
                    b,
                    idx_a1,
                    st0.alpha0_selector,
                    st0.alpha1_selector,
                    (i + 1) as nat,
                ) == Some(
                    (
                        final(codec).bit_index(),
                        final(cur).alpha0_selector as nat,
                        final(cur).alpha1_selector as nat,
                    ),
                )
                &&& spec_sel_pairs(
                    tables.alpha_selector.delta.depths(),
                    tables.alpha_selector.entries@.len(),
                    tables.alpha_selector.delta.depths(),
                    tables.alpha_selector.entries@.len(),
                    b,
                    final(codec).bit_index(),
                    final(cur).alpha0_selector as nat,
                    final(cur).alpha1_selector as nat,
                    (4 - i - 1) as nat,
                ) == spec_sel_pairs(
                    tables.alpha_selector.delta.depths(),
                    tables.alpha_selector.entries@.len(),
                    tables.alpha_selector.delta.depths(),
                    tables.alpha_selector.entries@.len(),
                    b,
                    idx_a1,
                    st0.alpha0_selector,
                    st0.alpha1_selector,
                    4,
                )
                &&& (forall|j: int|
                    0 <= j < i + 1 && 2 * (x as int) + #[trigger] (j % 2) < block_x && 2 * (
                    y as int) + j / 2 < block_y ==> spec_dxn_pos_ok(
                        *tables,
                        b,
                        st0,
                        g_ti,
                        idx1,
                        idx_a0,
                        idx_a1,
                        f as int,
                        x as int,
                        y as int,
                        block_x as int,
                        block_y as int,
                        j,
                        final(result)@,
                    ))
            },
            Err(_) => spec_sel_pairs(
                tables.alpha_selector.delta.depths(),
                tables.alpha_selector.entries@.len(),
                tables.alpha_selector.delta.depths(),
                tables.alpha_selector.entries@.len(),
                b,
                idx_a1,
                st0.alpha0_selector,
                st0.alpha1_selector,
                4,
            ) is None,
        },
{
    let bs: usize = 16;
    let tile = tls[i];
    let clip = (skip_x && i % 2 == 1) || (skip_y && i >= 2);
    proof {
        if !clip && block_x > 0 && block_y > 0 {
            lemma_block_in_range(block_x as int, x as int, (i % 2) as int);
            lemma_block_in_range(block_y as int, y as int, (i / 2) as int);
        }
        vstd::std_specs::vec::axiom_spec_len(result);
        assert(((f + 1) as int) * (block_y * (block_x * bs)) <= result@.len()) by (
        nonlinear_arith)
            requires
                f < face,
                result@.len() == (block_y * (block_x * bs)) * (face as int),
                0 <= block_y * (block_x * bs),
        ;
    }
    let mut ca = cur.alpha0_selector;
    let alpha0_selector = match tables.alpha_selector.next(codec, &mut ca) {
        Ok(v) => v,
        Err(e) => { return Err(e) },
    };
    cur.alpha0_selector = ca;
    let mut cc = cur.alpha1_selector;
    let alpha1_selector = match tables.alpha_selector.next(codec, &mut cc) {
        Ok(v) => v,
        Err(e) => { return Err(e) },
    };
    cur.alpha1_selector = cc;
    proof {
        lemma_sel_pairs_snoc(
            tables.alpha_selector.delta.depths(),
            tables.alpha_selector.entries@.len(),
            tables.alpha_selector.delta.depths(),
            tables.alpha_selector.entries@.len(),
            b,
            idx_a1,
            st0.alpha0_selector,
            st0.alpha1_selector,
            i as nat,
        );
    }
    if !clip {
        let pos = block_write_pos(f, y * 2 + i / 2, x * 2 + i % 2, block_x, block_y, bs);
        let bytes = (Dxn {
            alpha0_endpoint: alpha0_endpoints[tile],
            alpha0_selector,
            alpha1_endpoint: alpha1_endpoints[tile],
            alpha1_selector,
        }).to_bytes();
        let ghost res0 = result@;
        write_block16(result, pos, &bytes);
        proof {
            let xb = 2 * (x as int) + (i as int) % 2;
            let yb = 2 * (y as int) + (i as int) / 2;
            assert(bytes@ =~= spec_dxn_bytes(
                alpha0_endpoints@[tile as int],
                alpha0_selector,
                alpha1_endpoints@[tile as int],
                alpha1_selector,
            ));
            assert(result@.subrange(pos as int, pos as int + 16) =~= bytes@);
            assert(spec_dxn_pos_ok(
                *tables,
                b,
                st0,
                g_ti,
                idx1,
                idx_a0,
                idx_a1,
                f as int,
                x as int,
                y as int,
                block_x as int,
                block_y as int,
                i as int,
                result@,
            ));
            lemma_dxn_write_ok(
                *tables,
                b,
                st0,
                g_ti,
                idx1,
                idx_a0,
                idx_a1,
                f as int,
                x as int,
                y as int,
                block_x as int,
                block_y as int,
                face as int,
                i as int,
                pos as int,
                res_old,
                res0,
                result@,
            );
        }
    } else {
        proof {
            if skip_x && i % 2 == 1 {
                lemma_clip_outside(block_x as int, x as int);
            }
            if skip_y && i >= 2 {
                lemma_clip_outside(block_y as int, y as int);
            }
        }
    }
    Ok(())
}

/// Decode one chunk of a DXN level and write its unclipped blocks:
/// read the tile structure, the per-tile endpoints, then per block
/// position the selectors, placing each block kept by the clipping rule
/// at its raster offset in `result`.
#[verifier::loop_isolation(false)]
#[verifier::rlimit(100)]
#[verifier::spinoff_prover]
fn unpack_chunk_dxn(
    tables: &Tables,
    codec: &mut Codec,
    cur: &mut UnpackCursors,
    result: &mut Vec<u8>,
    f: usize,
    x: usize,
    y: usize,
    block_x: usize,
    block_y: usize,
    face: u8,
) -> (r: Result<(), Error>)
    requires
        tables.wf(),
        old(codec).wf(),
        old(cur).ok(*tables),
        f < face,
        block_x <= 16384,
        block_y <= 16384,
        x < (block_x + 1) as int / 2,
        y < (block_y + 1) as int / 2,
        old(result)@.len() == (block_y * (block_x * 16)) * (face as int),
    ensures
        final(codec).wf(),
        final(codec).bytes() == old(codec).bytes(),
        final(cur).ok(*tables),
        final(result)@.len() == old(result)@.len(),
        forall|p: int|
            0 <= p < old(result)@.len() && !spec_chunk_writes_at(
                p,
                f as int,
                x as int,
                y as int,
                block_x as int,
                block_y as int,
                16,
            ) ==> final(result)@[p] == old(result)@[p],
        match r {
            Ok(_) => spec_chunk_step(
                *tables,
                old(codec).bytes(),
                old(cur).state(old(codec).bit_index()),
                BlockFormat::Dxn,
            ) == Some(final(cur).state(final(codec).bit_index())) && spec_dxn_content(
                *tables,
                old(codec).bytes(),
                old(cur).state(old(codec).bit_index()),
                f as int,
                x as int,
                y as int,
                block_x as int,
                block_y as int,
                final(result)@,
            ),
            Err(_) => spec_chunk_step(
                *tables,
                old(codec).bytes(),
                old(cur).state(old(codec).bit_index()),
                BlockFormat::Dxn,
            ) is None,
        },
{
    let ghost b = old(codec).bytes();
    let skip_y = y == (block_y + 1) / TRUNK_SIZE - 1 && block_y % 2 == 1;
    let skip_x = block_x % 2 == 1 && x == (block_x + 1) / TRUNK_SIZE - 1;

    let mut tile_bits = cur.tile_bits;
    let (tiles_count, tls) = match next_tile_idx(codec, &tables.chunk_encoding, &mut tile_bits) {
        Ok(ct) => ct,
        Err(e) => { return Err(e) },
    };
    cur.tile_bits = tile_bits;
    let ghost idx1 = codec.bit_index();
    let ghost tb_done = cur.tile_bits;
    let ghost g_ti = spec_next_tile(
        tables.chunk_encoding.depths(),
        b,
        old(codec).bit_index(),
        old(cur).tile_bits,
    )->Some_0.0;

    let mut alpha0_endpoints: Vec<(u8, u8)> = vec![(0u8, 0u8); 4];
    {
        let mut i: usize = 0;
        while i < tiles_count
            invariant
                codec.wf(),
                codec.bytes() == b,
                i <= tiles_count,
                cur.ok(*tables),
                cur.tile_bits == tb_done,
                cur.color_endpoint == old(cur).color_endpoint,
                cur.color_selector == old(cur).color_selector,
                cur.alpha0_selector == old(cur).alpha0_selector,
                cur.alpha1_endpoint == old(cur).alpha1_endpoint,
                cur.alpha1_selector == old(cur).alpha1_selector,
                alpha0_endpoints@.len() == 4,
                result@.len() == old(result)@.len(),
                spec_n_nexts(
                    tables.alpha_endpoint.delta.depths(),
                    tables.alpha_endpoint.entries@.len(),
                    b,
                    codec.bit_index(),
                    cur.alpha0_endpoint as nat,
                    (tiles_count - i) as nat,
                ) == spec_n_nexts(
                    tables.alpha_endpoint.delta.depths(),
                    tables.alpha_endpoint.entries@.len(),
                    b,
                    idx1,
                    old(cur).alpha0_endpoint as nat,
                    tiles_count as nat,
                ),
                spec_n_nexts(
                    tables.alpha_endpoint.delta.depths(),
                    tables.alpha_endpoint.entries@.len(),
                    b,
                    idx1,
                    old(cur).alpha0_endpoint as nat,
                    i as nat,
                ) == Some((codec.bit_index(), cur.alpha0_endpoint as nat)),
                forall|k: int|
                    0 <= k < i ==> (#[trigger] spec_n_nexts(
                        tables.alpha_endpoint.delta.depths(),
                        tables.alpha_endpoint.entries@.len(),
                        b,
                        idx1,
                        old(cur).alpha0_endpoint as nat,
                        (k + 1) as nat,
                    ) matches Some(pr) && alpha0_endpoints@[k]
                        == tables.alpha_endpoint.entries@[pr.1 as int]),
            decreases tiles_count - i,
        {
            let mut c = cur.alpha0_endpoint;
            let e = match tables.alpha_endpoint.next(codec, &mut c) {
                Ok(v) => v,
                Err(e) => { return Err(e) },
            };
            cur.alpha0_endpoint = c;
            alpha0_endpoints[i] = e;
            proof {
                lemma_n_nexts_snoc(
                    tables.alpha_endpoint.delta.depths(),
                    tables.alpha_endpoint.entries@.len(),
                    b,
                    idx1,
                    old(cur).alpha0_endpoint as nat,
                    i as nat,
                );
            }
            i = i + 1;
        }
    }
    let ghost idx_a0 = codec.bit_index();
    let ghost a0e_done = cur.alpha0_endpoint;

    let mut alpha1_endpoints: Vec<(u8, u8)> = vec![(0u8, 0u8); 4];
    {
        let mut i: usize = 0;
        while i < tiles_count
            invariant
                codec.wf(),
                codec.bytes() == b,
                i <= tiles_count,
                cur.ok(*tables),
                cur.tile_bits == tb_done,
                cur.color_endpoint == old(cur).color_endpoint,
                cur.color_selector == old(cur).color_selector,
                cur.alpha0_endpoint == a0e_done,
                cur.alpha0_selector == old(cur).alpha0_selector,
                cur.alpha1_selector == old(cur).alpha1_selector,
                alpha1_endpoints@.len() == 4,
                result@.len() == old(result)@.len(),
                spec_n_nexts(
                    tables.alpha_endpoint.delta.depths(),
                    tables.alpha_endpoint.entries@.len(),
                    b,
                    codec.bit_index(),
                    cur.alpha1_endpoint as nat,
                    (tiles_count - i) as nat,
                ) == spec_n_nexts(
                    tables.alpha_endpoint.delta.depths(),
                    tables.alpha_endpoint.entries@.len(),
                    b,
                    idx_a0,
                    old(cur).alpha1_endpoint as nat,
                    tiles_count as nat,
                ),
                spec_n_nexts(
                    tables.alpha_endpoint.delta.depths(),
                    tables.alpha_endpoint.entries@.len(),
                    b,
                    idx_a0,
                    old(cur).alpha1_endpoint as nat,
                    i as nat,
                ) == Some((codec.bit_index(), cur.alpha1_endpoint as nat)),
                forall|k: int|
                    0 <= k < i ==> (#[trigger] spec_n_nexts(
                        tables.alpha_endpoint.delta.depths(),
                        tables.alpha_endpoint.entries@.len(),
                        b,
                        idx_a0,
                        old(cur).alpha1_endpoint as nat,
                        (k + 1) as nat,
                    ) matches Some(pr) && alpha1_endpoints@[k]
                        == tables.alpha_endpoint.entries@[pr.1 as int]),
            decreases tiles_count - i,
        {
            let mut c = cur.alpha1_endpoint;
            let e = match tables.alpha_endpoint.next(codec, &mut c) {
                Ok(v) => v,
                Err(e) => { return Err(e) },
            };
            cur.alpha1_endpoint = c;
            alpha1_endpoints[i] = e;
            proof {
                lemma_n_nexts_snoc(
                    tables.alpha_endpoint.delta.depths(),
                    tables.alpha_endpoint.entries@.len(),
                    b,
                    idx_a0,
                    old(cur).alpha1_endpoint as nat,
                    i as nat,
                );
            }
            i = i + 1;
        }
    }
    let ghost idx_a1 = codec.bit_index();
    let ghost a1e_done = cur.alpha1_endpoint;
    let ghost st0 = old(cur).state(old(codec).bit_index());

    let mut i: usize = 0;
    while i < 4
        invariant
            codec.wf(),
            codec.bytes() == b,
            i <= 4,
            cur.ok(*tables),
            cur.tile_bits == tb_done,
            cur.color_endpoint == old(cur).color_endpoint,
            cur.color_selector == old(cur).color_selector,
            cur.alpha0_endpoint == a0e_done,
            cur.alpha1_endpoint == a1e_done,
            result@.len() == old(result)@.len(),
            spec_sel_pairs(
                tables.alpha_selector.delta.depths(),
                tables.alpha_selector.entries@.len(),
                tables.alpha_selector.delta.depths(),
                tables.alpha_selector.entries@.len(),
                b,
                idx_a1,
                st0.alpha0_selector,
                st0.alpha1_selector,
                i as nat,
            ) == Some((codec.bit_index(), cur.alpha0_selector as nat, cur.alpha1_selector as nat)),
            spec_sel_pairs(
                tables.alpha_selector.delta.depths(),
                tables.alpha_selector.entries@.len(),
                tables.alpha_selector.delta.depths(),
                tables.alpha_selector.entries@.len(),
                b,
                codec.bit_index(),
                cur.alpha0_selector as nat,
                cur.alpha1_selector as nat,
                (4 - i) as nat,
            ) == spec_sel_pairs(
                tables.alpha_selector.delta.depths(),
                tables.alpha_selector.entries@.len(),
                tables.alpha_selector.delta.depths(),
                tables.alpha_selector.entries@.len(),
                b,
                idx_a1,
                st0.alpha0_selector,
                st0.alpha1_selector,
                4,
            ),
            forall|j: int|
                0 <= j < i && 2 * (x as int) + #[trigger] (j % 2) < block_x && 2 * (y as int) + j
                    / 2 < block_y ==> spec_dxn_pos_ok(
                    *tables,
                    b,
                    st0,
                    g_ti,
                    idx1,
                    idx_a0,
                    idx_a1,
                    f as int,
                    x as int,
                    y as int,
                    block_x as int,
                    block_y as int,
                    j,
                    result@,
                ),
            forall|p: int|
                0 <= p < old(result)@.len() && !spec_chunk_writes_at(
                    p,
                    f as int,
                    x as int,
                    y as int,
                    block_x as int,
                    block_y as int,
                    16,
                ) ==> result@[p] == old(result)@[p],
        decreases 4 - i,
    {
        match dxn_position_step(
            tables,
            codec,
            cur,
            result,
            &alpha0_endpoints,
            &alpha1_endpoints,
            &tls,
            i,
            f,
            x,
            y,
            block_x,
            block_y,
            face,
            skip_x,
            skip_y,
            Ghost(b),
            Ghost(st0),
            Ghost(g_ti),
            Ghost(idx1),
            Ghost(idx_a0),
            Ghost(idx_a1),
            Ghost(old(result)@),
        ) {
            Ok(_) => {},
            Err(e) => { return Err(e) },
        }
        i = i + 1;
    }
    proof {
        assert(spec_dxn_content(
            *tables,
            b,
            st0,
            f as int,
            x as int,
            y as int,
            block_x as int,
            block_y as int,
            result@,
        ));
    }
    Ok(())
}
/// What one chunk leaves in the buffer, for each block family.
pub open spec fn spec_content_at(
    t: Tables,
    bytes: Seq<u8>,
    st: UnpackState,
    fmt: BlockFormat,
    f: int,
    x: int,
    y: int,
    block_x: int,
    block_y: int,
    buf: Seq<u8>,
) -> bool {
    match fmt {
        BlockFormat::Dxt1 => spec_dxt1_content(t, bytes, st, f, x, y, block_x, block_y, buf),
        BlockFormat::Dxt5 => spec_dxt5_content(t, bytes, st, f, x, y, block_x, block_y, buf),
        BlockFormat::Dxt5A => spec_dxt5a_content(t, bytes, st, f, x, y, block_x, block_y, buf),
        BlockFormat::Dxn => spec_dxn_content(t, bytes, st, f, x, y, block_x, block_y, buf),
    }
}

/// The face and chunk coordinates the `n`-th decoded chunk of a level
/// lands on: faces in order, rows in order, and within a row the
/// serpentine direction.
pub open spec fn spec_chunk_coords(width: u16, height: u16, n: int) -> (int, int, int) {
    let cx = (spec_blocks(width) + 1) / 2;
    let cy = (spec_blocks(height) + 1) / 2;
    let cpf = cx * cy;
    let f = n / cpf;
    let r = n % cpf;
    let y = r / cx;
    let xi = r % cx;
    let x = if y % 2 == 1 {
        cx - 1 - xi
    } else {
        xi
    };
    (f, x, y)
}

/// Whether byte `p` of the level buffer lies inside some block of the
/// block grid. Clipped chunk positions name blocks outside the grid, so
/// a decode writes only inside-grid bytes; everything else keeps the
/// buffer's zero fill.
pub open spec fn spec_in_some_block(p: int, width: u16, height: u16, face: u8, bs: int) -> bool {
    exists|f: int, xb: int, yb: int|
        0 <= f < face && 0 <= xb < spec_blocks(width) && 0 <= yb < spec_blocks(height)
            && #[trigger] spec_block_offset(
            f,
            xb,
            yb,
            spec_blocks(width),
            spec_blocks(height),
            bs,
        ) <= p < spec_block_offset(f, xb, yb, spec_blocks(width), spec_blocks(height), bs) + bs
}

/// Every unclipped block of every chunk of the level holds its block, as
/// the chunk fold and the serpentine map place them.
pub open spec fn spec_level_contents(
    t: Tables,
    bytes: Seq<u8>,
    st0: UnpackState,
    fmt: BlockFormat,
    width: u16,
    height: u16,
    face: u8,
    upto: int,
    buf: Seq<u8>,
) -> bool {
    forall|n: int|
        0 <= n < upto ==> (#[trigger] spec_chunks(t, bytes, st0, fmt, n as nat) matches Some(stn)
            && spec_content_at(
            t,
            bytes,
            stn,
            fmt,
            spec_chunk_coords(width, height, n).0,
            spec_chunk_coords(width, height, n).1,
            spec_chunk_coords(width, height, n).2,
            spec_blocks(width),
            spec_blocks(height),
            buf,
        ))
}

/// Extending a run of chunk decodes by one more successful chunk.
proof fn lemma_chunks_snoc(t: Tables, bytes: Seq<u8>, st0: UnpackState, fmt: BlockFormat, n: nat)
    requires
        spec_chunks(t, bytes, st0, fmt, n) is Some,
        spec_chunk_step(t, bytes, spec_chunks(t, bytes, st0, fmt, n)->Some_0, fmt) is Some,
    ensures
        spec_chunks(t, bytes, st0, fmt, (n + 1) as nat) == Some(
            spec_chunk_step(t, bytes, spec_chunks(t, bytes, st0, fmt, n)->Some_0, fmt)->Some_0,
        ),
    decreases n,
{
    if n == 0 {
        let st1 = spec_chunk_step(t, bytes, st0, fmt)->Some_0;
        assert(spec_chunks(t, bytes, st0, fmt, 1) == spec_chunks(t, bytes, st1, fmt, 0));
    } else {
        let st1 = spec_chunk_step(t, bytes, st0, fmt)->Some_0;
        assert(spec_chunks(t, bytes, st0, fmt, n) == spec_chunks(t, bytes, st1, fmt, (n - 1) as nat));
        lemma_chunks_snoc(t, bytes, st1, fmt, (n - 1) as nat);
        assert(spec_chunks(t, bytes, st0, fmt, (n + 1) as nat) == spec_chunks(
            t,
            bytes,
            st1,
            fmt,
            n,
        ));
    }
}

/// Two distinct blocks of a level, of any faces, occupy disjoint byte
/// ranges.
proof fn lemma_blocks_disjoint_faces(
    f1: int,
    x1: int,
    y1: int,
    f2: int,
    x2: int,
    y2: int,
    block_x: int,
    block_y: int,
    bs: int,
)
    requires
        bs > 0,
        0 <= x1 < block_x,
        0 <= y1 < block_y,
        0 <= x2 < block_x,
        0 <= y2 < block_y,
        0 <= f1,
        0 <= f2,
        (f1, x1, y1) != (f2, x2, y2),
    ensures
        spec_block_offset(f1, x1, y1, block_x, block_y, bs) + bs <= spec_block_offset(
            f2,
            x2,
            y2,
            block_x,
            block_y,
            bs,
        ) || spec_block_offset(f2, x2, y2, block_x, block_y, bs) + bs <= spec_block_offset(
            f1,
            x1,
            y1,
            block_x,
            block_y,
            bs,
        ),
{
    if f1 == f2 {
        lemma_block_ranges_disjoint(f1, x1, y1, x2, y2, block_x, block_y, bs);
    } else {
        let fs = block_y * (block_x * bs);
        assert(y1 * (block_x * bs) + x1 * bs + bs <= fs && 0 <= y1 * (block_x * bs) + x1 * bs
            && y2 * (block_x * bs) + x2 * bs + bs <= fs && 0 <= y2 * (block_x * bs) + x2 * bs) by (
        nonlinear_arith)
            requires
                bs > 0,
                0 <= x1 < block_x,
                0 <= y1 < block_y,
                0 <= x2 < block_x,
                0 <= y2 < block_y,
                fs == block_y * (block_x * bs),
        ;
        if f1 < f2 {
            assert((f1 + 1) * fs <= f2 * fs) by (nonlinear_arith)
                requires
                    f1 < f2,
                    fs >= 0,
            ;
            assert(f1 * fs + fs == (f1 + 1) * fs) by (nonlinear_arith);
        } else {
            assert((f2 + 1) * fs <= f1 * fs) by (nonlinear_arith)
                requires
                    f2 < f1,
                    fs >= 0,
            ;
            assert(f2 * fs + fs == (f2 + 1) * fs) by (nonlinear_arith);
        }
    }
}

/// Within a level's chunk grid, distinct chunk numbers land on distinct
/// face and chunk coordinates.
proof fn lemma_coords_inject(width: u16, height: u16, n1: int, n2: int)
    requires
        (spec_blocks(width) + 1) / 2 >= 1,
        (spec_blocks(height) + 1) / 2 >= 1,
        0 <= n1,
        0 <= n2,
        n1 != n2,
    ensures
        spec_chunk_coords(width, height, n1) != spec_chunk_coords(width, height, n2),
{
    let cx = (spec_blocks(width) + 1) / 2;
    let cy = (spec_blocks(height) + 1) / 2;
    let cpf = cx * cy;
    assert(cpf >= 1) by (nonlinear_arith)
        requires
            cx >= 1,
            cy >= 1,
            cpf == cx * cy,
    ;
    vstd::arithmetic::div_mod::lemma_fundamental_div_mod(n1, cpf);
    vstd::arithmetic::div_mod::lemma_fundamental_div_mod(n2, cpf);
    vstd::arithmetic::div_mod::lemma_mod_bound(n1, cpf);
    vstd::arithmetic::div_mod::lemma_mod_bound(n2, cpf);
    let r1 = n1 % cpf;
    let r2 = n2 % cpf;
    vstd::arithmetic::div_mod::lemma_fundamental_div_mod(r1, cx);
    vstd::arithmetic::div_mod::lemma_fundamental_div_mod(r2, cx);
    vstd::arithmetic::div_mod::lemma_mod_bound(r1, cx);
    vstd::arithmetic::div_mod::lemma_mod_bound(r2, cx);
    if spec_chunk_coords(width, height, n1) == spec_chunk_coords(width, height, n2) {
        assert(n1 / cpf == n2 / cpf && r1 / cx == r2 / cx && r1 % cx == r2 % cx);
        assert(r1 == r2);
        assert(n1 == n2);
    }
}

/// The `n`-th chunk of a level lies inside the face and chunk grid.
proof fn lemma_coords_range(width: u16, height: u16, face: u8, n: int)
    requires
        (spec_blocks(width) + 1) / 2 >= 1,
        (spec_blocks(height) + 1) / 2 >= 1,
        0 <= n < spec_chunk_count(width, height, face),
    ensures
        0 <= spec_chunk_coords(width, height, n).0 < face,
        0 <= spec_chunk_coords(width, height, n).1 < (spec_blocks(width) + 1) / 2,
        0 <= spec_chunk_coords(width, height, n).2 < (spec_blocks(height) + 1) / 2,
{
    let cx = (spec_blocks(width) + 1) / 2;
    let cy = (spec_blocks(height) + 1) / 2;
    let cpf = cx * cy;
    assert(cpf >= 1) by (nonlinear_arith)
        requires
            cx >= 1,
            cy >= 1,
            cpf == cx * cy,
    ;
    assert(spec_chunk_count(width, height, face) == cpf * (face as int)) by (nonlinear_arith)
        requires
            cpf == cx * cy,
            spec_chunk_count(width, height, face) == cx * cy * (face as int),
    ;
    vstd::arithmetic::div_mod::lemma_fundamental_div_mod(n, cpf);
    vstd::arithmetic::div_mod::lemma_mod_bound(n, cpf);
    let r = n % cpf;
    vstd::arithmetic::div_mod::lemma_fundamental_div_mod(r, cx);
    vstd::arithmetic::div_mod::lemma_mod_bound(r, cx);
    assert(n / cpf < face) by (nonlinear_arith)
        requires
            n == cpf * (n / cpf) + n % cpf,
            0 <= n % cpf < cpf,
            n < cpf * (face as int),
            cpf >= 1,
    ;
    assert(r / cx < cy) by (nonlinear_arith)
        requires
            r == cx * (r / cx) + r % cx,
            0 <= r % cx < cx,
            r < cpf,
            cpf == cx * cy,
            cx >= 1,
    ;
}

/// A chunk's blocks keep their bytes when another chunk writes only its
/// own blocks: distinct chunks own disjoint block ranges.
#[verifier::rlimit(100)]
proof fn lemma_content_preserved(
    t: Tables,
    bytes: Seq<u8>,
    stn: UnpackState,
    fmt: BlockFormat,
    f1: int,
    x1: int,
    y1: int,
    f2: int,
    x2: int,
    y2: int,
    block_x: int,
    block_y: int,
    face: int,
    res0: Seq<u8>,
    res1: Seq<u8>,
)
    requires
        spec_content_at(t, bytes, stn, fmt, f1, x1, y1, block_x, block_y, res0),
        (f1, x1, y1) != (f2, x2, y2),
        0 <= f1 < face,
        0 <= f2,
        0 <= x1,
        0 <= y1,
        0 <= x2,
        0 <= y2,
        res0.len() == (block_y * (block_x * spec_block_bytes(fmt))) * face,
        res1.len() == res0.len(),
        forall|p: int|
            0 <= p < res0.len() && !spec_chunk_writes_at(
                p,
                f2,
                x2,
                y2,
                block_x,
                block_y,
                spec_block_bytes(fmt) as int,
            ) ==> res1[p] == res0[p],
    ensures
        spec_content_at(t, bytes, stn, fmt, f1, x1, y1, block_x, block_y, res1),
{
    let bs = spec_block_bytes(fmt) as int;
    assert forall|j: int|
        0 <= j < 4 && 2 * x1 + #[trigger] (j % 2) < block_x && 2 * y1 + j / 2
            < block_y implies res1.subrange(
        spec_block_offset(f1, 2 * x1 + j % 2, 2 * y1 + j / 2, block_x, block_y, bs),
        spec_block_offset(f1, 2 * x1 + j % 2, 2 * y1 + j / 2, block_x, block_y, bs) + bs,
    ) == res0.subrange(
        spec_block_offset(f1, 2 * x1 + j % 2, 2 * y1 + j / 2, block_x, block_y, bs),
        spec_block_offset(f1, 2 * x1 + j % 2, 2 * y1 + j / 2, block_x, block_y, bs) + bs,
    ) by {
        let xb = 2 * x1 + j % 2;
        let yb = 2 * y1 + j / 2;
        let offj = spec_block_offset(f1, xb, yb, block_x, block_y, bs);
        assert(0 <= offj && offj + bs <= res0.len()) by (nonlinear_arith)
            requires
                offj == f1 * (block_y * (block_x * bs)) + yb * (block_x * bs) + xb * bs,
                0 <= xb < block_x,
                0 <= yb < block_y,
                0 <= f1 < face,
                bs > 0,
                res0.len() == (block_y * (block_x * bs)) * face,
        ;
        assert forall|p: int| offj <= p < offj + bs implies !spec_chunk_writes_at(
            p,
            f2,
            x2,
            y2,
            block_x,
            block_y,
            bs,
        ) by {
            assert forall|i: int|
                0 <= i < 4 && 2 * x2 + i % 2 < block_x && 2 * y2 + i / 2 < block_y implies !(
            #[trigger] spec_block_offset(
                f2,
                2 * x2 + i % 2,
                2 * y2 + i / 2,
                block_x,
                block_y,
                bs,
            ) <= p < spec_block_offset(f2, 2 * x2 + i % 2, 2 * y2 + i / 2, block_x, block_y, bs)
                + bs) by {
                assert(!(f1 == f2 && xb == 2 * x2 + i % 2 && yb == 2 * y2 + i / 2));
                lemma_blocks_disjoint_faces(
                    f1,
                    xb,
                    yb,
                    f2,
                    2 * x2 + i % 2,
                    2 * y2 + i / 2,
                    block_x,
                    block_y,
                    bs,
                );
            }
        }
        assert forall|p: int| offj <= p < offj + bs implies res1[p] == res0[p] by {}
        assert(res1.subrange(offj, offj + bs) =~= res0.subrange(offj, offj + bs));
    }
    match fmt {
        BlockFormat::Dxt1 => {
            assert(spec_dxt1_content(t, bytes, stn, f1, x1, y1, block_x, block_y, res1));
        },
        BlockFormat::Dxt5 => {
            assert(spec_dxt5_content(t, bytes, stn, f1, x1, y1, block_x, block_y, res1));
        },
        BlockFormat::Dxt5A => {
            assert(spec_dxt5a_content(t, bytes, stn, f1, x1, y1, block_x, block_y, res1));
        },
        BlockFormat::Dxn => {
            assert(spec_dxn_content(t, bytes, stn, f1, x1, y1, block_x, block_y, res1));
        },
    }
}

/// Decode one chunk and write its unclipped blocks, for any family.
fn unpack_chunk(
    tables: &Tables,
    codec: &mut Codec,
    cur: &mut UnpackCursors,
    result: &mut Vec<u8>,
    fmt: BlockFormat,
    f: usize,
    x: usize,
    y: usize,
    block_x: usize,
    block_y: usize,
    face: u8,
) -> (r: Result<(), Error>)
    requires
        tables.wf(),
        old(codec).wf(),
        old(cur).ok(*tables),
        f < face,
        block_x <= 16384,
        block_y <= 16384,
        x < (block_x + 1) as int / 2,
        y < (block_y + 1) as int / 2,
        old(result)@.len() == (block_y * (block_x * spec_block_bytes(fmt))) * (face as int),
    ensures
        final(codec).wf(),
        final(codec).bytes() == old(codec).bytes(),
        final(cur).ok(*tables),
        final(result)@.len() == old(result)@.len(),
        forall|p: int|
            0 <= p < old(result)@.len() && !spec_chunk_writes_at(
                p,
                f as int,
                x as int,
                y as int,
                block_x as int,
                block_y as int,
                spec_block_bytes(fmt) as int,
            ) ==> final(result)@[p] == old(result)@[p],
        match r {
            Ok(_) => spec_chunk_step(
                *tables,
                old(codec).bytes(),
                old(cur).state(old(codec).bit_index()),
                fmt,
            ) == Some(final(cur).state(final(codec).bit_index())) && spec_content_at(
                *tables,
                old(codec).bytes(),
                old(cur).state(old(codec).bit_index()),
                fmt,
                f as int,
                x as int,
                y as int,
                block_x as int,
                block_y as int,
                final(result)@,
            ),
            Err(_) => spec_chunk_step(
                *tables,
                old(codec).bytes(),
                old(cur).state(old(codec).bit_index()),
                fmt,
            ) is None,
        },
{
    match fmt {
        BlockFormat::Dxt1 => unpack_chunk_dxt1(
            tables,
            codec,
            cur,
            result,
            f,
            x,
            y,
            block_x,
            block_y,
            face,
        ),
        BlockFormat::Dxt5 => unpack_chunk_dxt5(
            tables,
            codec,
            cur,
            result,
            f,
            x,
            y,
            block_x,
            block_y,
            face,
        ),
        BlockFormat::Dxt5A => unpack_chunk_dxt5a(
            tables,
            codec,
            cur,
            result,
            f,
            x,
            y,
            block_x,
            block_y,
            face,
        ),
        BlockFormat::Dxn => unpack_chunk_dxn(
            tables,
            codec,
            cur,
            result,
            f,
            x,
            y,
            block_x,
            block_y,
            face,
        ),
    }
}

/// Chunks per level: the chunk grid of one face, over every face.
pub open spec fn spec_chunk_count(width: u16, height: u16, face: u8) -> int {
    ((spec_blocks(width) + 1) / 2) * ((spec_blocks(height) + 1) / 2) * (face as int)
}

/// Decode one whole level: walk the chunks of each face in serpentine
/// order, writing each unclipped block at its raster position. On
/// success the buffer holds `block_x * block_y * block_size * face`
/// bytes, faces concatenated; the serial state ends exactly where the
/// chunk fold says, and the level stream ends at its trailing-byte
/// boundary.
#[verifier::rlimit(100)]
fn unpack_core(
    tables: &Tables,
    codec: &mut Codec,
    width: u16,
    height: u16,
    face: u8,
    fmt: BlockFormat,
) -> (r: Result<Vec<u8>, Error>)
    requires
        tables.wf(),
        old(codec).wf(),
        1 <= face,
        spec_level_fits(width, height, face),
    ensures
        final(codec).wf(),
        final(codec).bytes() == old(codec).bytes(),
        match r {
            Ok(v) => {
                &&& v@.len() == spec_level_size(width, height, face, fmt)
                &&& final(codec).spec_is_complete()
                &&& spec_chunks(
                    *tables,
                    old(codec).bytes(),
                    UnpackState::start(old(codec).bit_index()),
                    fmt,
                    spec_chunk_count(width, height, face) as nat,
                ) matches Some(fin) && fin.idx == final(codec).bit_index()
                &&& spec_level_contents(
                    *tables,
                    old(codec).bytes(),
                    UnpackState::start(old(codec).bit_index()),
                    fmt,
                    width,
                    height,
                    face,
                    spec_chunk_count(width, height, face),
                    v@,
                )
                &&& (forall|p: int|
                    0 <= p < v@.len() && !spec_in_some_block(
                        p,
                        width,
                        height,
                        face,
                        spec_block_bytes(fmt) as int,
                    ) ==> v@[p] == 0)
            },
            Err(e) => {
                &&& !(spec_chunks(
                    *tables,
                    old(codec).bytes(),
                    UnpackState::start(old(codec).bit_index()),
                    fmt,
                    spec_chunk_count(width, height, face) as nat,
                ) matches Some(fin) && fin.idx + 7 >= 8 * old(codec).bytes().len())
                &&& ((spec_chunks(
                    *tables,
                    old(codec).bytes(),
                    UnpackState::start(old(codec).bit_index()),
                    fmt,
                    spec_chunk_count(width, height, face) as nat,
                ) matches Some(fin) && fin.idx + 7 < 8 * old(codec).bytes().len()) ==> e
                    == Error::LevelTrailingBytes)
            },
        },
{
    let ghost b = old(codec).bytes();
    let ghost st0 = UnpackState::start(old(codec).bit_index());
    let block_x = (width as usize + 3) / 4;
    let block_y = (height as usize + 3) / 4;
    let chunk_x = (block_x + 1) / TRUNK_SIZE;
    let chunk_y = (block_y + 1) / TRUNK_SIZE;
    let bs: usize = match fmt {
        BlockFormat::Dxt1 => 8,
        BlockFormat::Dxt5 => 16,
        BlockFormat::Dxt5A => 8,
        BlockFormat::Dxn => 16,
    };
    proof {
        vstd::arithmetic::div_mod::lemma_div_is_ordered(width as int + 3, 65538, 4);
        vstd::arithmetic::div_mod::lemma_div_is_ordered(height as int + 3, 65538, 4);
        assert(block_x * bs <= 262144) by (nonlinear_arith)
            requires
                0 <= block_x <= 16384,
                0 <= bs <= 16,
        ;
        assert(block_y * (block_x * bs) * (face as int) <= spec_blocks(width) * spec_blocks(
            height,
        ) * 16 * (face as int)) by (nonlinear_arith)
            requires
                block_x == spec_blocks(width),
                block_y == spec_blocks(height),
                0 <= block_x,
                0 <= block_y,
                0 <= bs <= 16,
                1 <= face,
        ;
        assert(block_y * (block_x * bs) <= block_y * (block_x * bs) * (face as int)) by (
        nonlinear_arith)
            requires
                1 <= face,
                0 <= block_y * (block_x * bs),
        ;
    }
    let pitch = block_x * bs;
    let face_size = block_y * pitch;
    let total = face_size * face as usize;
    proof {
        assert(total == spec_level_size(width, height, face, fmt)) by (nonlinear_arith)
            requires
                total == block_y * (block_x * bs) * (face as int),
                block_x == spec_blocks(width),
                block_y == spec_blocks(height),
                bs == spec_block_bytes(fmt),
                spec_level_size(width, height, face, fmt) == spec_blocks(width) * spec_blocks(
                    height,
                ) * spec_block_bytes(fmt) * (face as int),
        ;
    }
    let mut result = vec![0u8; total];
    let mut cur = UnpackCursors::new();
    let ghost cpf = (chunk_x * chunk_y) as int;
    let ghost total_chunks = spec_chunk_count(width, height, face);
    proof {
        assert(total_chunks == cpf * (face as int)) by (nonlinear_arith)
            requires
                cpf == chunk_x * chunk_y,
                chunk_x == (spec_blocks(width) + 1) / 2,
                chunk_y == (spec_blocks(height) + 1) / 2,
                total_chunks == ((spec_blocks(width) + 1) / 2) * ((spec_blocks(height) + 1) / 2) * (
                face as int),
        ;
    }
    let ghost mut done: int = 0;

    let mut f: usize = 0;
    while f < face as usize
        invariant
            tables.wf(),
            codec.wf(),
            b == old(codec).bytes(),
            codec.bytes() == b,
            f <= face,
            1 <= face,
            block_x == spec_blocks(width),
            block_y == spec_blocks(height),
            chunk_x == (block_x + 1) as int / 2,
            chunk_y == (block_y + 1) as int / 2,
            block_x <= 16384,
            block_y <= 16384,
            bs == spec_block_bytes(fmt),
            result@.len() == (block_y * (block_x * spec_block_bytes(fmt))) * (face as int),
            result@.len() == spec_level_size(width, height, face, fmt),
            cur.ok(*tables),
            st0 == UnpackState::start(old(codec).bit_index()),
            cpf == chunk_x * chunk_y,
            total_chunks == spec_chunk_count(width, height, face),
            total_chunks == cpf * (face as int),
            done == f * cpf,
            0 <= done <= total_chunks,
            spec_chunks(
                *tables,
                b,
                cur.state(codec.bit_index()),
                fmt,
                (total_chunks - done) as nat,
            ) == spec_chunks(*tables, b, st0, fmt, total_chunks as nat),
            spec_chunks(*tables, b, st0, fmt, done as nat) == Some(
                cur.state(codec.bit_index()),
            ),
            spec_level_contents(*tables, b, st0, fmt, width, height, face, done, result@),
            forall|p: int|
                0 <= p < result@.len() && !spec_in_some_block(
                    p,
                    width,
                    height,
                    face,
                    spec_block_bytes(fmt) as int,
                ) ==> result@[p] == 0,
        decreases face - f,
    {
        proof {
            assert(f * cpf + cpf <= (face as int) * cpf) by (nonlinear_arith)
                requires
                    f < face,
                    cpf >= 0,
            ;
            assert((face as int) * cpf == cpf * (face as int)) by (nonlinear_arith);
            assert(((f + 1) as int) * cpf == f * cpf + cpf) by (nonlinear_arith);
            assert(chunk_y * chunk_x == cpf) by (nonlinear_arith)
                requires
                    cpf == chunk_x * chunk_y,
            ;
        }
        let mut y: usize = 0;
        while y < chunk_y
            invariant
                tables.wf(),
                codec.wf(),
                b == old(codec).bytes(),
                codec.bytes() == b,
                f < face,
                y <= chunk_y,
                block_x == spec_blocks(width),
                block_y == spec_blocks(height),
                chunk_x == (block_x + 1) as int / 2,
                chunk_y == (block_y + 1) as int / 2,
                block_x <= 16384,
                block_y <= 16384,
                bs == spec_block_bytes(fmt),
                result@.len() == (block_y * (block_x * spec_block_bytes(fmt))) * (face as int),
                result@.len() == spec_level_size(width, height, face, fmt),
                cur.ok(*tables),
                st0 == UnpackState::start(old(codec).bit_index()),
                cpf == chunk_x * chunk_y,
                total_chunks == spec_chunk_count(width, height, face),
                total_chunks == cpf * (face as int),
                done == f * cpf + y * chunk_x,
                done + (chunk_y - y) * chunk_x <= (f + 1) * cpf <= total_chunks,
                spec_chunks(
                    *tables,
                    b,
                    cur.state(codec.bit_index()),
                    fmt,
                    (total_chunks - done) as nat,
                ) == spec_chunks(*tables, b, st0, fmt, total_chunks as nat),
                spec_chunks(*tables, b, st0, fmt, done as nat) == Some(
                    cur.state(codec.bit_index()),
                ),
                spec_level_contents(*tables, b, st0, fmt, width, height, face, done, result@),
                forall|p: int|
                    0 <= p < result@.len() && !spec_in_some_block(
                        p,
                        width,
                        height,
                        face,
                        spec_block_bytes(fmt) as int,
                    ) ==> result@[p] == 0,
            decreases chunk_y - y,
        {
            proof {
                assert((chunk_y - y) * chunk_x == chunk_x + ((chunk_y - (y + 1)) * chunk_x)) by (
                nonlinear_arith);
                assert((chunk_y - (y + 1)) * chunk_x >= 0) by (nonlinear_arith)
                    requires
                        y < chunk_y,
                        chunk_x >= 0,
                ;
                assert(((y + 1) as int) * chunk_x == y * chunk_x + chunk_x) by (nonlinear_arith);
            }
            let mut xi: usize = 0;
            while xi < chunk_x
                invariant
                    tables.wf(),
                    codec.wf(),
                    b == old(codec).bytes(),
                    codec.bytes() == b,
                    f < face,
                    y < chunk_y,
                    xi <= chunk_x,
                    block_x == spec_blocks(width),
                    block_y == spec_blocks(height),
                    chunk_x == (block_x + 1) as int / 2,
                    chunk_y == (block_y + 1) as int / 2,
                    block_x <= 16384,
                    block_y <= 16384,
                    bs == spec_block_bytes(fmt),
                    result@.len() == (block_y * (block_x * spec_block_bytes(fmt))) * (
                    face as int),
                    result@.len() == spec_level_size(width, height, face, fmt),
                    cur.ok(*tables),
                    st0 == UnpackState::start(old(codec).bit_index()),
                    cpf == chunk_x * chunk_y,
                    total_chunks == spec_chunk_count(width, height, face),
                    total_chunks == cpf * (face as int),
                    done == f * cpf + y * chunk_x + xi,
                    done + (chunk_x - xi) <= total_chunks,
                    spec_chunks(
                        *tables,
                        b,
                        cur.state(codec.bit_index()),
                        fmt,
                        (total_chunks - done) as nat,
                    ) == spec_chunks(*tables, b, st0, fmt, total_chunks as nat),
                    spec_chunks(*tables, b, st0, fmt, done as nat) == Some(
                        cur.state(codec.bit_index()),
                    ),
                    spec_level_contents(*tables, b, st0, fmt, width, height, face, done, result@),
                    forall|p: int|
                        0 <= p < result@.len() && !spec_in_some_block(
                            p,
                            width,
                            height,
                            face,
                            spec_block_bytes(fmt) as int,
                        ) ==> result@[p] == 0,
                decreases chunk_x - xi,
            {
                let x = if y % 2 == 1 {
                    chunk_x - 1 - xi
                } else {
                    xi
                };
                let ghost pre_st = cur.state(codec.bit_index());
                let ghost res_pre = result@;
                match unpack_chunk(
                    tables,
                    codec,
                    &mut cur,
                    &mut result,
                    fmt,
                    f,
                    x,
                    y,
                    block_x,
                    block_y,
                    face,
                ) {
                    Ok(_) => {},
                    Err(e) => {
                        proof {
                            assert(total_chunks - done >= 1);
                            assert(spec_chunks(
                                *tables,
                                b,
                                pre_st,
                                fmt,
                                (total_chunks - done) as nat,
                            ) is None);
                        }
                        return Err(e);
                    },
                }
                proof {
                    assert(total_chunks - done >= 1);
                    assert(spec_chunks(*tables, b, pre_st, fmt, (total_chunks - done) as nat)
                        == spec_chunks(
                        *tables,
                        b,
                        cur.state(codec.bit_index()),
                        fmt,
                        (total_chunks - done - 1) as nat,
                    ));
                    lemma_chunks_snoc(*tables, b, st0, fmt, done as nat);
                    let cxi = chunk_x as int;
                    let cyi = chunk_y as int;
                    let r = (y as int) * cxi + (xi as int);
                    assert(r + 1 <= cpf) by (nonlinear_arith)
                        requires
                            r == (y as int) * cxi + (xi as int),
                            0 <= xi < cxi,
                            0 <= y < cyi,
                            cpf == cxi * cyi,
                    ;
                    vstd::arithmetic::div_mod::lemma_fundamental_div_mod_converse(
                        done,
                        cpf,
                        f as int,
                        r,
                    );
                    vstd::arithmetic::div_mod::lemma_fundamental_div_mod_converse(
                        r,
                        cxi,
                        y as int,
                        xi as int,
                    );
                    assert(spec_chunk_coords(width, height, done) == (f as int, x as int, y as int));
                    assert forall|n: int| 0 <= n < done + 1 implies (#[trigger] spec_chunks(
                        *tables,
                        b,
                        st0,
                        fmt,
                        n as nat,
                    ) matches Some(stn) && spec_content_at(
                        *tables,
                        b,
                        stn,
                        fmt,
                        spec_chunk_coords(width, height, n).0,
                        spec_chunk_coords(width, height, n).1,
                        spec_chunk_coords(width, height, n).2,
                        spec_blocks(width),
                        spec_blocks(height),
                        result@,
                    )) by {
                        if n == done {
                            assert(spec_chunks(*tables, b, st0, fmt, n as nat) == Some(pre_st));
                        } else {
                            let stn = spec_chunks(*tables, b, st0, fmt, n as nat)->Some_0;
                            lemma_coords_inject(width, height, n, done);
                            lemma_coords_range(width, height, face, n);
                            lemma_content_preserved(
                                *tables,
                                b,
                                stn,
                                fmt,
                                spec_chunk_coords(width, height, n).0,
                                spec_chunk_coords(width, height, n).1,
                                spec_chunk_coords(width, height, n).2,
                                f as int,
                                x as int,
                                y as int,
                                block_x as int,
                                block_y as int,
                                face as int,
                                res_pre,
                                result@,
                            );
                        }
                    }
                    done = done + 1;
                }
                xi = xi + 1;
            }
            y = y + 1;
        }
        proof {
            assert(((f + 1) as int) * cpf == f * cpf + cpf) by (nonlinear_arith);
            assert(chunk_y * chunk_x == cpf) by (nonlinear_arith)
                requires
                    cpf == chunk_x * chunk_y,
            ;
        }
        f = f + 1;
    }
    proof {
        assert((face as int) * cpf == cpf * (face as int)) by (nonlinear_arith);
        assert(done == total_chunks);
    }
    if !codec.is_complete() {
        return Err(Error::LevelTrailingBytes);
    }
    Ok(result)
}

impl Dxt1 {
    /// Decode one level of a DXT1 texture.
    pub fn unpack(tables: &Tables, codec: &mut Codec, width: u16, height: u16, face: u8) -> (r:
        Result<Vec<u8>, Error>)
        requires
            tables.wf(),
            old(codec).wf(),
            1 <= face,
            spec_level_fits(width, height, face),
        ensures
            final(codec).wf(),
            final(codec).bytes() == old(codec).bytes(),
            r matches Ok(v) ==> v@.len() == spec_level_size(
                width,
                height,
                face,
                BlockFormat::Dxt1,
            ) && final(codec).spec_is_complete() && (spec_chunks(
                *tables,
                old(codec).bytes(),
                UnpackState::start(old(codec).bit_index()),
                BlockFormat::Dxt1,
                spec_chunk_count(width, height, face) as nat,
            ) matches Some(fin) && fin.idx == final(codec).bit_index()) && spec_level_contents(
                *tables,
                old(codec).bytes(),
                UnpackState::start(old(codec).bit_index()),
                BlockFormat::Dxt1,
                width,
                height,
                face,
                spec_chunk_count(width, height, face),
                v@,
            ) && (forall|p: int|
                0 <= p < v@.len() && !spec_in_some_block(
                    p,
                    width,
                    height,
                    face,
                    spec_block_bytes(BlockFormat::Dxt1) as int,
                ) ==> v@[p] == 0),
            r is Err ==> !(spec_chunks(
                *tables,
                old(codec).bytes(),
                UnpackState::start(old(codec).bit_index()),
                BlockFormat::Dxt1,
                spec_chunk_count(width, height, face) as nat,
            ) matches Some(fin) && fin.idx + 7 >= 8 * old(codec).bytes().len()),
            r matches Err(e) ==> ((spec_chunks(
                *tables,
                old(codec).bytes(),
                UnpackState::start(old(codec).bit_index()),
                BlockFormat::Dxt1,
                spec_chunk_count(width, height, face) as nat,
            ) matches Some(fin) && fin.idx + 7 < 8 * old(codec).bytes().len()) ==> e
                == Error::LevelTrailingBytes),
    {
        unpack_core(tables, codec, width, height, face, BlockFormat::Dxt1)
    }
}

impl Dxt5 {
    /// Decode one level of a DXT5 texture (all swizzled variants share
    /// this layout).
    pub fn unpack(tables: &Tables, codec: &mut Codec, width: u16, height: u16, face: u8) -> (r:
        Result<Vec<u8>, Error>)
        requires
            tables.wf(),
            old(codec).wf(),
            1 <= face,
            spec_level_fits(width, height, face),
        ensures
            final(codec).wf(),
            final(codec).bytes() == old(codec).bytes(),
            r matches Ok(v) ==> v@.len() == spec_level_size(
                width,
                height,
                face,
                BlockFormat::Dxt5,
            ) && final(codec).spec_is_complete() && (spec_chunks(
                *tables,
                old(codec).bytes(),
                UnpackState::start(old(codec).bit_index()),
                BlockFormat::Dxt5,
                spec_chunk_count(width, height, face) as nat,
            ) matches Some(fin) && fin.idx == final(codec).bit_index()) && spec_level_contents(
                *tables,
                old(codec).bytes(),
                UnpackState::start(old(codec).bit_index()),
                BlockFormat::Dxt5,
                width,
                height,
                face,
                spec_chunk_count(width, height, face),
                v@,
            ) && (forall|p: int|
                0 <= p < v@.len() && !spec_in_some_block(
                    p,
                    width,
                    height,
                    face,
                    spec_block_bytes(BlockFormat::Dxt5) as int,
                ) ==> v@[p] == 0),
            r is Err ==> !(spec_chunks(
                *tables,
                old(codec).bytes(),
                UnpackState::start(old(codec).bit_index()),
                BlockFormat::Dxt5,
                spec_chunk_count(width, height, face) as nat,
            ) matches Some(fin) && fin.idx + 7 >= 8 * old(codec).bytes().len()),
            r matches Err(e) ==> ((spec_chunks(
                *tables,
                old(codec).bytes(),
                UnpackState::start(old(codec).bit_index()),
                BlockFormat::Dxt5,
                spec_chunk_count(width, height, face) as nat,
            ) matches Some(fin) && fin.idx + 7 < 8 * old(codec).bytes().len()) ==> e
                == Error::LevelTrailingBytes),
    {
        unpack_core(tables, codec, width, height, face, BlockFormat::Dxt5)
    }
}

impl Dxt5A {
    /// Decode one level of a DXT5A texture.
    pub fn unpack(tables: &Tables, codec: &mut Codec, width: u16, height: u16, face: u8) -> (r:
        Result<Vec<u8>, Error>)
        requires
            tables.wf(),
            old(codec).wf(),
            1 <= face,
            spec_level_fits(width, height, face),
        ensures
            final(codec).wf(),
            final(codec).bytes() == old(codec).bytes(),
            r matches Ok(v) ==> v@.len() == spec_level_size(
                width,
                height,
                face,
                BlockFormat::Dxt5A,
            ) && final(codec).spec_is_complete() && (spec_chunks(
                *tables,
                old(codec).bytes(),
                UnpackState::start(old(codec).bit_index()),
                BlockFormat::Dxt5A,
                spec_chunk_count(width, height, face) as nat,
            ) matches Some(fin) && fin.idx == final(codec).bit_index()) && spec_level_contents(
                *tables,
                old(codec).bytes(),
                UnpackState::start(old(codec).bit_index()),
                BlockFormat::Dxt5A,
                width,
                height,
                face,
                spec_chunk_count(width, height, face),
                v@,
            ) && (forall|p: int|
                0 <= p < v@.len() && !spec_in_some_block(
                    p,
                    width,
                    height,
                    face,
                    spec_block_bytes(BlockFormat::Dxt5A) as int,
                ) ==> v@[p] == 0),
            r is Err ==> !(spec_chunks(
                *tables,
                old(codec).bytes(),
                UnpackState::start(old(codec).bit_index()),
                BlockFormat::Dxt5A,
                spec_chunk_count(width, height, face) as nat,
            ) matches Some(fin) && fin.idx + 7 >= 8 * old(codec).bytes().len()),
            r matches Err(e) ==> ((spec_chunks(
                *tables,
                old(codec).bytes(),
                UnpackState::start(old(codec).bit_index()),
                BlockFormat::Dxt5A,
                spec_chunk_count(width, height, face) as nat,
            ) matches Some(fin) && fin.idx + 7 < 8 * old(codec).bytes().len()) ==> e
                == Error::LevelTrailingBytes),
    {
        unpack_core(tables, codec, width, height, face, BlockFormat::Dxt5A)
    }
}

impl Dxn {
    /// Decode one level of a DXN texture.
    pub fn unpack(tables: &Tables, codec: &mut Codec, width: u16, height: u16, face: u8) -> (r:
        Result<Vec<u8>, Error>)
        requires
            tables.wf(),
            old(codec).wf(),
            1 <= face,
            spec_level_fits(width, height, face),
        ensures
            final(codec).wf(),
            final(codec).bytes() == old(codec).bytes(),
            r matches Ok(v) ==> v@.len() == spec_level_size(
                width,
                height,
                face,
                BlockFormat::Dxn,
            ) && final(codec).spec_is_complete() && (spec_chunks(
                *tables,
                old(codec).bytes(),
                UnpackState::start(old(codec).bit_index()),
                BlockFormat::Dxn,
                spec_chunk_count(width, height, face) as nat,
            ) matches Some(fin) && fin.idx == final(codec).bit_index()) && spec_level_contents(
                *tables,
                old(codec).bytes(),
                UnpackState::start(old(codec).bit_index()),
                BlockFormat::Dxn,
                width,
                height,
                face,
                spec_chunk_count(width, height, face),
                v@,
            ) && (forall|p: int|
                0 <= p < v@.len() && !spec_in_some_block(
                    p,
                    width,
                    height,
                    face,
                    spec_block_bytes(BlockFormat::Dxn) as int,
                ) ==> v@[p] == 0),
            r is Err ==> !(spec_chunks(
                *tables,
                old(codec).bytes(),
                UnpackState::start(old(codec).bit_index()),
                BlockFormat::Dxn,
                spec_chunk_count(width, height, face) as nat,
            ) matches Some(fin) && fin.idx + 7 >= 8 * old(codec).bytes().len()),
            r matches Err(e) ==> ((spec_chunks(
                *tables,
                old(codec).bytes(),
                UnpackState::start(old(codec).bit_index()),
                BlockFormat::Dxn,
                spec_chunk_count(width, height, face) as nat,
            ) matches Some(fin) && fin.idx + 7 < 8 * old(codec).bytes().len()) ==> e
                == Error::LevelTrailingBytes),
    {
        unpack_core(tables, codec, width, height, face, BlockFormat::Dxn)
    }
}

} // verus!
