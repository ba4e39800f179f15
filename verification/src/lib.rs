//! Decoder for CRN compressed textures: a bit-level reader, canonical
//! Huffman tables, delta-coded shared palettes, and a chunk/tile state
//! machine that emits raw DXT blocks (DXT1, DXT5, DXT5A, DXN).

use vstd::prelude::*;
use vstd::arithmetic::power2::{pow2, lemma2_to64, lemma_pow2_strictly_increases};
use vstd::arithmetic::div_mod::{
    lemma_add_mod_noop, lemma_small_mod, lemma_mod_twice, lemma_mod_add_multiples_vanish,
};

pub mod codec;
pub mod unpack;

pub use codec::Huffman;

use codec::{Codec, spec_decode, spec_get_huffman};

verus! {

/// Everything that can go wrong while decoding a CRN stream.
#[derive(Debug, Clone, Copy, PartialEq, Eq, Structural)]
pub enum Error {
    /// A consuming read asked for more bits than the stream holds.
    ReadPastEnd,
    /// The table stream announced more meta-symbols than the shuffle order has.
    MetaCountExceedsShuffle,
    /// The code lengths violate the Kraft equality (and the table is neither
    /// empty nor a singleton).
    IncompleteHuffmanTree,
    /// No code of any depth matched the lookahead bits.
    HuffmanNoMatch,
    /// A run-length repeat arrived before any depth had been emitted.
    RunLengthBeforeAnyDepth,
    /// A run of code lengths stepped past the announced symbol count.
    RunLengthPastSymbolCount,
    /// A palette stream was not consumed up to its trailing-byte boundary.
    PaletteTrailingBytes,
    /// The table stream was not consumed up to its trailing-byte boundary.
    TableTrailingBytes,
    /// A level stream was not consumed up to its trailing-byte boundary.
    LevelTrailingBytes,
    /// A delta read was attempted against an empty palette.
    EmptyPaletteAccess,
    /// The format tag names a format this decoder does not support.
    UnsupportedFormat,
    /// The requested mip level does not exist.
    LevelOutOfRange,
}

/// The compressed formats a CRN container can carry. Only DXT1, DXT5 (and
/// its swizzled variants), DXT5A and DXN can be unpacked.
#[derive(Debug, Clone, Copy, PartialEq, Eq, Structural)]
pub enum Format {
    Dxt1,
    Dxt3,
    Dxt5,
    Dxt5CCxY,
    Dxt5xGxR,
    Dxt5xGBR,
    Dxt5AGBR,
    DxnXY,
    DxnYX,
    Dxt5A,
    Etc1,
    Invalid,
}

impl Format {
    /// The format a header tag byte names, if any.
    pub open spec fn spec_from_u8(v: u8) -> Option<Format> {
        if v == 0 {
            Some(Format::Dxt1)
        } else if v == 1 {
            Some(Format::Dxt3)
        } else if v == 2 {
            Some(Format::Dxt5)
        } else if v == 3 {
            Some(Format::Dxt5CCxY)
        } else if v == 4 {
            Some(Format::Dxt5xGxR)
        } else if v == 5 {
            Some(Format::Dxt5xGBR)
        } else if v == 6 {
            Some(Format::Dxt5AGBR)
        } else if v == 7 {
            Some(Format::DxnXY)
        } else if v == 8 {
            Some(Format::DxnYX)
        } else if v == 9 {
            Some(Format::Dxt5A)
        } else if v == 10 {
            Some(Format::Etc1)
        } else if v == 255 {
            Some(Format::Invalid)
        } else {
            None
        }
    }

    pub fn from_u8(v: u8) -> (r: Option<Format>)
        ensures
            r == Format::spec_from_u8(v),
    {
        match v {
            0 => Some(Format::Dxt1),
            1 => Some(Format::Dxt3),
            2 => Some(Format::Dxt5),
            3 => Some(Format::Dxt5CCxY),
            4 => Some(Format::Dxt5xGxR),
            5 => Some(Format::Dxt5xGBR),
            6 => Some(Format::Dxt5AGBR),
            7 => Some(Format::DxnXY),
            8 => Some(Format::DxnYX),
            9 => Some(Format::Dxt5A),
            10 => Some(Format::Etc1),
            255 => Some(Format::Invalid),
            _ => None,
        }
    }
}

impl Default for Format {
    fn default() -> (r: Self)
        ensures
            r == Format::Invalid,
    {
        Format::Invalid
    }
}

/// Descriptor of one shared palette inside the container: where its
/// delta-coded bytes sit and how many entries they decode to.
#[derive(Debug, Default, Clone, Copy, PartialEq, Eq, Structural)]
pub struct Palette {
    pub offset: u32,
    pub size: u32,
    pub count: u16,
}

/// Big-endian 16-bit field at byte offset `off`.
pub open spec fn be16(bytes: Seq<u8>, off: int) -> u16 {
    ((bytes[off] as u16) * 256 + bytes[off + 1] as u16) as u16
}

/// Big-endian 24-bit field at byte offset `off`.
pub open spec fn be24(bytes: Seq<u8>, off: int) -> u32 {
    ((bytes[off] as u32) * 0x10000 + (bytes[off + 1] as u32) * 0x100 + bytes[off + 2] as u32) as u32
}

/// Big-endian 32-bit field at byte offset `off`.
pub open spec fn be32(bytes: Seq<u8>, off: int) -> u32 {
    ((bytes[off] as u32) * 0x1000000 + (bytes[off + 1] as u32) * 0x10000 + (bytes[off
        + 2] as u32) * 0x100 + bytes[off + 3] as u32) as u32
}

fn read_be16(input: &[u8], off: usize) -> (r: u16)
    requires
        off + 2 <= input@.len(),
    ensures
        r == be16(input@, off as int),
{
    (input[off] as u16) * 256 + (input[off + 1] as u16)
}

fn read_be24(input: &[u8], off: usize) -> (r: u32)
    requires
        off + 3 <= input@.len(),
    ensures
        r == be24(input@, off as int),
{
    (input[off] as u32) * 0x10000 + (input[off + 1] as u32) * 0x100 + (input[off + 2] as u32)
}

fn read_be32(input: &[u8], off: usize) -> (r: u32)
    requires
        off + 4 <= input@.len(),
    ensures
        r == be32(input@, off as int),
{
    (input[off] as u32) * 0x1000000 + (input[off + 1] as u32) * 0x10000 + (input[off
        + 2] as u32) * 0x100 + (input[off + 3] as u32)
}

/// One step of the table-less CRC16: fold byte `c` into the register.
pub open spec fn crc16_step(v: u16, c: u8) -> u16 {
    let x = c ^ ((v >> 8) as u8);
    let x2 = (x ^ (x >> 4)) as u16;
    ((v << 8) ^ (x2 << 12)) ^ ((x2 << 5) ^ x2)
}

/// The CRC16 register after folding the first `j` bytes, starting from
/// the complemented seed.
pub open spec fn spec_crc16(init: u16, bytes: Seq<u8>, j: nat) -> u16
    decreases j,
{
    if j == 0 {
        !init
    } else {
        crc16_step(spec_crc16(init, bytes, (j - 1) as nat), bytes[j - 1])
    }
}

/// One bit step of the polynomial-division CRC16.
pub open spec fn crc16_poly_bit(v: u16, poly: u16) -> u16 {
    if v & 1 == 1 {
        (v >> 1) ^ poly
    } else {
        v >> 1
    }
}

/// `k` bit steps of the polynomial-division CRC16.
pub open spec fn crc16_poly_bits(v: u16, poly: u16, k: nat) -> u16
    decreases k,
{
    if k == 0 {
        v
    } else {
        crc16_poly_bit(crc16_poly_bits(v, poly, (k - 1) as nat), poly)
    }
}

/// The polynomial-division CRC16 register after the first `j` bytes.
pub open spec fn spec_crc16_poly(init: u16, poly: u16, bytes: Seq<u8>, j: nat) -> u16
    decreases j,
{
    if j == 0 {
        !init
    } else {
        crc16_poly_bits(spec_crc16_poly(init, poly, bytes, (j - 1) as nat) ^ (bytes[j - 1] as u16), poly, 8)
    }
}

/// The parsed CRN container header: geometry, format, the four palette
/// descriptors, the coding-table slice, and the per-level offsets.
#[derive(Debug)]
pub struct Header {
    pub magic: [u8; 2],
    pub header_size: u16,
    pub header_crc16: u16,
    pub file_size: u32,
    pub data_crc16: u16,
    pub width: u16,
    pub height: u16,
    pub level_count: u8,
    pub face_count: u8,
    pub format: Format,
    pub flags: u16,
    pub reserved: u32,
    pub userdata: [u32; 2],
    pub color_endpoints: Palette,
    pub color_selectors: Palette,
    pub alpha_endpoints: Palette,
    pub alpha_selectors: Palette,
    pub table_size: u16,
    pub table_offset: u32,
    pub level_offset: Vec<u32>,
}

impl Header {
    /// The header's fixed part, in bytes; the level offsets follow it.
    pub fn fixed_size() -> (r: usize)
        ensures
            r == 70,
    {
        33 + 8 * 4 + 5
    }

    /// Every field holds the big-endian value at its fixed offset.
    pub open spec fn parsed_from(self, bytes: Seq<u8>) -> bool {
        &&& bytes.len() >= 70 + 4 * (bytes[16] as int)
        &&& self.magic@ == seq![bytes[0], bytes[1]]
        &&& self.header_size == be16(bytes, 2)
        &&& self.header_crc16 == be16(bytes, 4)
        &&& self.file_size == be32(bytes, 6)
        &&& self.data_crc16 == be16(bytes, 10)
        &&& self.width == be16(bytes, 12)
        &&& self.height == be16(bytes, 14)
        &&& self.level_count == bytes[16]
        &&& self.face_count == bytes[17]
        &&& Some(self.format) == Format::spec_from_u8(bytes[18])
        &&& self.flags == be16(bytes, 19)
        &&& self.reserved == be32(bytes, 21)
        &&& self.userdata@ == seq![be32(bytes, 25), be32(bytes, 29)]
        &&& self.color_endpoints == Header::spec_palette(bytes, 33)
        &&& self.color_selectors == Header::spec_palette(bytes, 41)
        &&& self.alpha_endpoints == Header::spec_palette(bytes, 49)
        &&& self.alpha_selectors == Header::spec_palette(bytes, 57)
        &&& self.table_size == be16(bytes, 65)
        &&& self.table_offset == be24(bytes, 67)
        &&& self.level_offset@.len() == self.level_count
        &&& forall|i: int|
            0 <= i < self.level_count ==> self.level_offset@[i] == be32(bytes, 70 + 4 * i)
    }

    /// The palette descriptor at byte offset `off`.
    pub open spec fn spec_palette(bytes: Seq<u8>, off: int) -> Palette {
        Palette { offset: be24(bytes, off), size: be24(bytes, off + 3), count: be16(bytes, off + 6) }
    }

    fn read_palette(input: &[u8], off: usize) -> (r: Palette)
        requires
            off + 8 <= input@.len(),
        ensures
            r == Header::spec_palette(input@, off as int),
    {
        let _n = input.len();
        Palette {
            offset: read_be24(input, off),
            size: read_be24(input, off + 3),
            count: read_be16(input, off + 6),
        }
    }

    /// Parse the fixed header and the level offset table from the start
    /// of a container.
    pub fn parse(input: &[u8]) -> (r: Result<Header, Error>)
        ensures
            match r {
                Ok(h) => h.parsed_from(input@),
                Err(e) => {
                    &&& (e == Error::ReadPastEnd || e == Error::UnsupportedFormat)
                    &&& (e == Error::UnsupportedFormat ==> input@.len() >= 70
                        && Format::spec_from_u8(input@[18]) is None)
                    &&& (e == Error::ReadPastEnd ==> (input@.len() < 70 || input@.len() < 70 + 4 * (
                    input@[16] as int)))
                },
            },
            r is Err <==> (input@.len() < 70 || input@.len() < 70 + 4 * (input@[16] as int)
                || Format::spec_from_u8(input@[18]) is None),
    {
        if input.len() < 70 {
            return Err(Error::ReadPastEnd);
        }
        let level_count = input[16];
        if (input.len() - 70) / 4 < level_count as usize {
            return Err(Error::ReadPastEnd);
        }
        let format = match Format::from_u8(input[18]) {
            Some(f) => f,
            None => { return Err(Error::UnsupportedFormat) },
        };
        let mut level_offset: Vec<u32> = Vec::new();
        let mut i: usize = 0;
        while i < level_count as usize
            invariant
                input@.len() >= 70 + 4 * (level_count as int),
                i <= level_count,
                level_offset@.len() == i,
                forall|j: int| 0 <= j < i ==> level_offset@[j] == be32(input@, 70 + 4 * j),
            decreases level_count - i,
        {
            level_offset.push(read_be32(input, 70 + 4 * i));
            i = i + 1;
        }
        Ok(Header {
            magic: [input[0], input[1]],
            header_size: read_be16(input, 2),
            header_crc16: read_be16(input, 4),
            file_size: read_be32(input, 6),
            data_crc16: read_be16(input, 10),
            width: read_be16(input, 12),
            height: read_be16(input, 14),
            level_count,
            face_count: input[17],
            format,
            flags: read_be16(input, 19),
            reserved: read_be32(input, 21),
            userdata: [read_be32(input, 25), read_be32(input, 29)],
            color_endpoints: Header::read_palette(input, 33),
            color_selectors: Header::read_palette(input, 41),
            alpha_endpoints: Header::read_palette(input, 49),
            alpha_selectors: Header::read_palette(input, 57),
            table_size: read_be16(input, 65),
            table_offset: read_be24(input, 67),
            level_offset,
        })
    }

    /// The table-less CRC16 over `input`, seeded with `!init`.
    pub fn crc16(init: u16, input: &[u8]) -> (r: u16)
        ensures
            r == spec_crc16(init, input@, input@.len()),
    {
        let mut v: u16 = !init;
        let mut i: usize = 0;
        while i < input.len()
            invariant
                i <= input@.len(),
                v == spec_crc16(init, input@, i as nat),
            decreases input@.len() - i,
        {
            let c = input[i];
            let x: u8 = c ^ ((v >> 8) as u8);
            let x2: u16 = (x ^ (x >> 4)) as u16;
            v = ((v << 8) ^ (x2 << 12)) ^ ((x2 << 5) ^ x2);
            i = i + 1;
        }
        v
    }

    /// The CRC16 of `input` by bitwise polynomial division.
    pub fn crc16_poly(init: u16, poly: u16, input: &[u8]) -> (r: u16)
        ensures
            r == spec_crc16_poly(init, poly, input@, input@.len()),
    {
        let mut v: u16 = !init;
        let mut i: usize = 0;
        while i < input.len()
            invariant
                i <= input@.len(),
                v == spec_crc16_poly(init, poly, input@, i as nat),
            decreases input@.len() - i,
        {
            let mut w: u16 = v ^ (input[i] as u16);
            let mut k: usize = 0;
            while k < 8
                invariant
                    k <= 8,
                    w == crc16_poly_bits(v ^ (input@[i as int] as u16), poly, k as nat),
                decreases 8 - k,
            {
                w = if w & 1 == 1 {
                    (w >> 1) ^ poly
                } else {
                    w >> 1
                };
                k = k + 1;
            }
            v = w;
            i = i + 1;
        }
        v
    }

    /// Whether the header's sizes and both CRCs match the container bytes.
    pub open spec fn spec_check_crc(self, bytes: Seq<u8>) -> bool {
        &&& self.header_size == 70 + 4 * (self.level_count as int)
        &&& self.file_size == bytes.len()
        &&& 6 <= self.header_size <= bytes.len()
        &&& self.header_crc16 == !spec_crc16(
            0,
            bytes.subrange(6, self.header_size as int),
            (self.header_size - 6) as nat,
        )
        &&& self.data_crc16 == !spec_crc16(
            0,
            bytes.subrange(self.header_size as int, bytes.len() as int),
            (bytes.len() - self.header_size) as nat,
        )
    }

    pub fn check_crc(&self, input: &[u8]) -> (r: bool)
        ensures
            r == self.spec_check_crc(input@),
    {
        if !(self.header_size as usize == 70 + 4 * self.level_count as usize
            && self.file_size as usize == input.len() && 6 <= self.header_size
            && self.header_size as usize <= input.len()) {
            return false;
        }
        let head = vstd::slice::slice_subrange(input, 6, self.header_size as usize);
        if self.header_crc16 != !Header::crc16(0, head) {
            return false;
        }
        let data = vstd::slice::slice_subrange(input, self.header_size as usize, input.len());
        self.data_crc16 == !Header::crc16(0, data)
    }

    /// Bytes per emitted block: 8 for the single-stream formats, 16 for
    /// the paired ones.
    pub open spec fn spec_block_size(self) -> usize {
        match self.format {
            Format::Dxt1 | Format::Dxt5A => 8,
            _ => 16,
        }
    }

    pub fn block_size(&self) -> (r: usize)
        ensures
            r == self.spec_block_size(),
    {
        match self.format {
            Format::Dxt1 | Format::Dxt5A => 8,
            _ => 16,
        }
    }

    /// Width and height of mip level `idx`, each halved per level and
    /// clamped at 1.
    pub fn get_level_info(&self, idx: usize) -> (r: Option<(u16, u16)>)
        ensures
            match r {
                Some(wh) => {
                    &&& idx < self.level_count
                    &&& wh.0 == vstd::math::max(
                        1,
                        self.width as int / vstd::arithmetic::power2::pow2(idx as nat) as int,
                    )
                    &&& wh.1 == vstd::math::max(
                        1,
                        self.height as int / vstd::arithmetic::power2::pow2(idx as nat) as int,
                    )
                },
                None => idx >= self.level_count,
            },
    {
        if idx < self.level_count as usize {
            let width = self.level_extent(self.width, idx);
            let height = self.level_extent(self.height, idx);
            Some((width, height))
        } else {
            None
        }
    }

    /// One extent halved `idx` times, clamped at 1.
    fn level_extent(&self, v: u16, idx: usize) -> (r: u16)
        ensures
            r == vstd::math::max(
                1,
                v as int / vstd::arithmetic::power2::pow2(idx as nat) as int,
            ),
    {
        if idx < 16 {
            proof {
                vstd::bits::lemma_u16_shr_is_div(v, idx as u16);
            }
            let s = v >> (idx as u16);
            if s > 1 {
                s
            } else {
                1
            }
        } else {
            proof {
                let p = vstd::arithmetic::power2::pow2(idx as nat) as int;
                vstd::arithmetic::power2::lemma2_to64();
                if idx > 16 {
                    vstd::arithmetic::power2::lemma_pow2_strictly_increases(16, idx as nat);
                }
                assert(v as int / p == 0) by (nonlinear_arith)
                    requires
                        0 <= v < p,
                ;
            }
            1
        }
    }
}

/// A shared palette paired with the Huffman table that codes cursor
/// deltas into it.
#[derive(Debug)]
pub struct Table<T> {
    pub delta: Huffman,
    pub entries: Vec<T>,
}

impl<T: Copy> Table<T> {
    pub open spec fn wf(self) -> bool {
        &&& self.delta.wf()
        &&& self.entries@.len() <= u16::MAX
    }

    pub fn new(delta: Huffman, entries: Vec<T>) -> (r: Self)
        ensures
            r.delta == delta,
            r.entries == entries,
    {
        Self { delta, entries }
    }

    /// Reduce a sum of two values below `max` back below `max`.
    fn truncate(idx: usize, max: usize) -> (r: usize)
        requires
            0 < max,
            idx < 2 * max,
        ensures
            r == idx as int % max as int,
    {
        proof {
            if idx >= max {
                vstd::arithmetic::div_mod::lemma_fundamental_div_mod_converse(
                    idx as int,
                    max as int,
                    1,
                    idx - max,
                );
            } else {
                lemma_small_mod(idx as nat, max as nat);
            }
        }
        if idx < max {
            idx
        } else {
            idx - max
        }
    }

    /// Decode one delta, advance the rolling cursor by it modulo the
    /// palette length, and hand back the entry at the new cursor.
    pub fn next(&self, codec: &mut Codec, idx: &mut usize) -> (r: Result<T, Error>)
        requires
            self.wf(),
            old(codec).wf(),
            *old(idx) < self.entries@.len() || self.entries@.len() == 0,
        ensures
            final(codec).wf(),
            final(codec).bytes() == old(codec).bytes(),
            match r {
                Ok(v) => {
                    &&& self.entries@.len() > 0
                    &&& *final(idx) < self.entries@.len()
                    &&& spec_decode(
                        self.delta.depths(),
                        old(codec).bytes(),
                        old(codec).bit_index(),
                    ) matches Some((sym, nidx)) && final(codec).bit_index() == nidx && *final(idx)
                        == (*old(idx) + sym) as int % (self.entries@.len() as int) && v
                        == self.entries@[*final(idx) as int]
                },
                Err(e) => {
                    &&& *final(idx) == *old(idx)
                    &&& ((spec_decode(
                        self.delta.depths(),
                        old(codec).bytes(),
                        old(codec).bit_index(),
                    ) is None && final(codec).bit_index() == old(codec).bit_index()) || (e
                        == Error::EmptyPaletteAccess && self.entries@.len() == 0 && spec_decode(
                        self.delta.depths(),
                        old(codec).bytes(),
                        old(codec).bit_index(),
                    ) is Some))
                },
            },
    {
        let sym = match self.delta.next(codec) {
            Ok(s) => s,
            Err(e) => { return Err(e) },
        };
        let len = self.entries.len();
        if len == 0 {
            return Err(Error::EmptyPaletteAccess);
        }
        let delta = (sym as usize) % len;
        let ni = Self::truncate(*idx + delta, len);
        proof {
            let l = len as int;
            lemma_small_mod(*old(idx) as nat, len as nat);
            lemma_mod_twice(sym as int, l);
            lemma_add_mod_noop(*old(idx) as int, sym as int, l);
        }
        *idx = ni;
        Ok(self.entries[ni])
    }
}

/// The delta fold of the alpha-endpoint palette: per entry, two deltas
/// advance the two 8-bit accumulators modulo 256 and the pair is emitted.
pub open spec fn spec_alpha_endpoints_fold(
    dm: Seq<u8>,
    bytes: Seq<u8>,
    idx: nat,
    count: nat,
    ar: nat,
    br: nat,
    acc: Seq<(u8, u8)>,
) -> Option<(Seq<(u8, u8)>, nat)>
    decreases count,
{
    if count == 0 {
        Some((acc, idx))
    } else {
        match spec_decode(dm, bytes, idx) {
            Option::None => None,
            Option::Some((da, i1)) => match spec_decode(dm, bytes, i1) {
                Option::None => None,
                Option::Some((db, i2)) => {
                    let a2 = ((ar + da) % 256) as nat;
                    let b2 = ((br + db) % 256) as nat;
                    spec_alpha_endpoints_fold(
                        dm,
                        bytes,
                        i2,
                        (count - 1) as nat,
                        a2,
                        b2,
                        acc.push((a2 as u8, b2 as u8)),
                    )
                },
            },
        }
    }
}

/// The whole alpha-endpoint palette decode from its byte slice: one delta
/// Huffman, then `count` entries, and the slice consumed to its last byte.
pub open spec fn spec_alpha_endpoints(pd: Seq<u8>, count: nat) -> Option<Seq<(u8, u8)>> {
    match spec_get_huffman(pd, 0) {
        Option::None => None,
        Option::Some((kd, i1)) => match spec_alpha_endpoints_fold(
            kd,
            pd,
            i1,
            count,
            0,
            0,
            Seq::empty(),
        ) {
            Option::None => None,
            Option::Some((es, iend)) => if iend + 7 >= 8 * pd.len() {
                Some(es)
            } else {
                None
            },
        },
    }
}

/// The delta fold of the color-endpoint palette: per entry, six deltas in
/// the 5/6/5 pattern advance six accumulators and two packed RGB565
/// endpoints are emitted.
pub open spec fn spec_color_endpoints_fold(
    dm1: Seq<u8>,
    dm2: Seq<u8>,
    bytes: Seq<u8>,
    idx: nat,
    count: nat,
    ar: nat,
    br: nat,
    cr: nat,
    dr: nat,
    er: nat,
    fr: nat,
    acc: Seq<(u16, u16)>,
) -> Option<(Seq<(u16, u16)>, nat)>
    decreases count,
{
    if count == 0 {
        Some((acc, idx))
    } else {
        match spec_decode(dm1, bytes, idx) {
            Option::None => None,
            Option::Some((da, i1)) => match spec_decode(dm2, bytes, i1) {
                Option::None => None,
                Option::Some((db, i2)) => match spec_decode(dm1, bytes, i2) {
                    Option::None => None,
                    Option::Some((dc, i3)) => match spec_decode(dm1, bytes, i3) {
                        Option::None => None,
                        Option::Some((dd, i4)) => match spec_decode(dm2, bytes, i4) {
                            Option::None => None,
                            Option::Some((de, i5)) => match spec_decode(dm1, bytes, i5) {
                                Option::None => None,
                                Option::Some((df, i6)) => {
                                    let a2 = ((ar + da) % 32) as nat;
                                    let b2 = ((br + db) % 64) as nat;
                                    let c2 = ((cr + dc) % 32) as nat;
                                    let d2 = ((dr + dd) % 32) as nat;
                                    let e2 = ((er + de) % 64) as nat;
                                    let f2 = ((fr + df) % 32) as nat;
                                    let ep0 = (c2 + b2 * 32 + a2 * 2048) as u16;
                                    let ep1 = (f2 + e2 * 32 + d2 * 2048) as u16;
                                    spec_color_endpoints_fold(
                                        dm1,
                                        dm2,
                                        bytes,
                                        i6,
                                        (count - 1) as nat,
                                        a2,
                                        b2,
                                        c2,
                                        d2,
                                        e2,
                                        f2,
                                        acc.push((ep0, ep1)),
                                    )
                                },
                            },
                        },
                    },
                },
            },
        }
    }
}

/// The whole color-endpoint palette decode from its byte slice: two delta
/// Huffmans, then `count` entries, and the slice consumed to its last byte.
pub open spec fn spec_color_endpoints(pd: Seq<u8>, count: nat) -> Option<Seq<(u16, u16)>> {
    match spec_get_huffman(pd, 0) {
        Option::None => None,
        Option::Some((kd1, i1)) => match spec_get_huffman(pd, i1) {
            Option::None => None,
            Option::Some((kd2, i2)) => match spec_color_endpoints_fold(
                kd1,
                kd2,
                pd,
                i2,
                count,
                0,
                0,
                0,
                0,
                0,
                0,
                Seq::empty(),
            ) {
                Option::None => None,
                Option::Some((es, iend)) => if iend + 7 >= 8 * pd.len() {
                    Some(es)
                } else {
                    None
                },
            },
        },
    }
}

impl Header {
    /// The palette's byte slice: `None` when the palette is absent
    /// (`count == 0`), an error when its descriptor points past the input.
    fn get_palette_data<'a>(&self, palette: Palette, input: &'a [u8]) -> (r: Result<
        Option<&'a [u8]>,
        Error,
    >)
        ensures
            match r {
                Ok(opt) => match opt {
                    Some(s) => palette.count > 0 && palette.offset + palette.size <= input@.len()
                        && s@ == input@.subrange(
                        palette.offset as int,
                        palette.offset + palette.size,
                    ),
                    None => palette.count == 0,
                },
                Err(e) => e == Error::ReadPastEnd && palette.count > 0 && palette.offset
                    + palette.size > input@.len(),
            },
    {
        if palette.count == 0 {
            return Ok(None);
        }
        if !(palette.offset as usize <= input.len() && palette.size as usize <= input.len()
            - palette.offset as usize) {
            return Err(Error::ReadPastEnd);
        }
        Ok(
            Some(
                vstd::slice::slice_subrange(
                    input,
                    palette.offset as usize,
                    palette.offset as usize + palette.size as usize,
                ),
            ),
        )
    }

    /// Decode the alpha-endpoint palette: `count` pairs of 8-bit endpoints.
    pub fn get_alpha_endpoints(&self, input: &[u8]) -> (r: Result<Vec<(u8, u8)>, Error>)
        requires
            input@.len() <= usize::MAX as nat / 8,
        ensures
            ({
                let cnt = self.alpha_endpoints.count as nat;
                let off = self.alpha_endpoints.offset as int;
                let sz = self.alpha_endpoints.size as int;
                match r {
                    Ok(v) => {
                        &&& v@.len() == cnt
                        &&& (cnt > 0 ==> off + sz <= input@.len() && Some(v@)
                            == spec_alpha_endpoints(input@.subrange(off, off + sz), cnt))
                    },
                    Err(e) => cnt > 0 && (off + sz > input@.len() || spec_alpha_endpoints(
                        input@.subrange(off, off + sz),
                        cnt,
                    ) is None) && (off + sz > input@.len() ==> e == Error::ReadPastEnd) && ((off
                        + sz <= input@.len() && (spec_get_huffman(
                        input@.subrange(off, off + sz),
                        0,
                    ) matches Some((kd, i1)) && (spec_alpha_endpoints_fold(
                        kd,
                        input@.subrange(off, off + sz),
                        i1,
                        cnt,
                        0,
                        0,
                        Seq::empty(),
                    ) matches Some((es, iend)) && iend + 7 < 8 * sz))) ==> e
                        == Error::PaletteTrailingBytes),
                }
            }),
    {
        let p = self.alpha_endpoints;
        let data = match self.get_palette_data(p, input) {
            Ok(Some(d)) => d,
            Ok(None) => { return Ok(Vec::new()) },
            Err(e) => { return Err(e) },
        };
        let ghost pd = data@;
        let mut codec = Codec::new(data);
        let dm = match codec.get_huffman() {
            Ok(h) => h,
            Err(e) => { return Err(e) },
        };
        let ghost hidx = codec.bit_index();
        let mut ar: u8 = 0;
        let mut br: u8 = 0;
        let mut out: Vec<(u8, u8)> = Vec::new();
        let count = p.count as usize;
        let mut i: usize = 0;
        while i < count
            invariant
                codec.wf(),
                codec.bytes() == pd,
                dm.wf(),
                i <= count,
                out@.len() == i,
                p == self.alpha_endpoints,
                count == p.count,
                p.count > 0,
                p.offset + p.size <= input@.len(),
                pd == input@.subrange(p.offset as int, p.offset + p.size),
                spec_get_huffman(pd, 0) == Some((dm.depths(), hidx)),
                spec_alpha_endpoints_fold(
                    dm.depths(),
                    pd,
                    codec.bit_index(),
                    (count - i) as nat,
                    ar as nat,
                    br as nat,
                    out@,
                ) == spec_alpha_endpoints_fold(
                    dm.depths(),
                    pd,
                    hidx,
                    count as nat,
                    0,
                    0,
                    Seq::empty(),
                ),
            decreases count - i,
        {
            let da = match dm.next(&mut codec) {
                Ok(s) => s,
                Err(e) => { return Err(e) },
            };
            let db = match dm.next(&mut codec) {
                Ok(s) => s,
                Err(e) => { return Err(e) },
            };
            let ta: u32 = ar as u32 + da;
            let tb: u32 = br as u32 + db;
            proof {
                assert(ta & 0xff == ta % 256) by (bit_vector);
                assert(tb & 0xff == tb % 256) by (bit_vector);
            }
            ar = (ta & 0xff) as u8;
            br = (tb & 0xff) as u8;
            out.push((ar, br));
            i = i + 1;
        }
        if !codec.is_complete() {
            return Err(Error::PaletteTrailingBytes);
        }
        Ok(out)
    }

    /// Decode the color-endpoint palette: `count` pairs of packed RGB565
    /// endpoints.
    #[verifier::rlimit(100)]
    pub fn get_color_endpoints(&self, input: &[u8]) -> (r: Result<Vec<(u16, u16)>, Error>)
        requires
            input@.len() <= usize::MAX as nat / 8,
        ensures
            ({
                let cnt = self.color_endpoints.count as nat;
                let off = self.color_endpoints.offset as int;
                let sz = self.color_endpoints.size as int;
                match r {
                    Ok(v) => {
                        &&& v@.len() == cnt
                        &&& (cnt > 0 ==> off + sz <= input@.len() && Some(v@)
                            == spec_color_endpoints(input@.subrange(off, off + sz), cnt))
                    },
                    Err(e) => cnt > 0 && (off + sz > input@.len() || spec_color_endpoints(
                        input@.subrange(off, off + sz),
                        cnt,
                    ) is None) && (off + sz > input@.len() ==> e == Error::ReadPastEnd) && ((off
                        + sz <= input@.len() && (spec_get_huffman(
                        input@.subrange(off, off + sz),
                        0,
                    ) matches Some((kd1, i1)) && (spec_get_huffman(
                        input@.subrange(off, off + sz),
                        i1,
                    ) matches Some((kd2, i2)) && (spec_color_endpoints_fold(
                        kd1,
                        kd2,
                        input@.subrange(off, off + sz),
                        i2,
                        cnt,
                        0,
                        0,
                        0,
                        0,
                        0,
                        0,
                        Seq::empty(),
                    ) matches Some((es, iend)) && iend + 7 < 8 * sz)))) ==> e
                        == Error::PaletteTrailingBytes),
                }
            }),
    {
        let p = self.color_endpoints;
        let data = match self.get_palette_data(p, input) {
            Ok(Some(d)) => d,
            Ok(None) => { return Ok(Vec::new()) },
            Err(e) => { return Err(e) },
        };
        let ghost pd = data@;
        let mut codec = Codec::new(data);
        let dm1 = match codec.get_huffman() {
            Ok(h) => h,
            Err(e) => { return Err(e) },
        };
        let ghost hidx1 = codec.bit_index();
        let dm2 = match codec.get_huffman() {
            Ok(h) => h,
            Err(e) => { return Err(e) },
        };
        let ghost hidx2 = codec.bit_index();
        let mut ar: u16 = 0;
        let mut br: u16 = 0;
        let mut cr: u16 = 0;
        let mut dr: u16 = 0;
        let mut er: u16 = 0;
        let mut fr: u16 = 0;
        let mut out: Vec<(u16, u16)> = Vec::new();
        let count = p.count as usize;
        let mut i: usize = 0;
        while i < count
            invariant
                codec.wf(),
                codec.bytes() == pd,
                dm1.wf(),
                dm2.wf(),
                i <= count,
                out@.len() == i,
                ar < 32,
                br < 64,
                cr < 32,
                dr < 32,
                er < 64,
                fr < 32,
                p == self.color_endpoints,
                count == p.count,
                p.count > 0,
                p.offset + p.size <= input@.len(),
                pd == input@.subrange(p.offset as int, p.offset + p.size),
                spec_get_huffman(pd, 0) == Some((dm1.depths(), hidx1)),
                spec_get_huffman(pd, hidx1) == Some((dm2.depths(), hidx2)),
                spec_color_endpoints_fold(
                    dm1.depths(),
                    dm2.depths(),
                    pd,
                    codec.bit_index(),
                    (count - i) as nat,
                    ar as nat,
                    br as nat,
                    cr as nat,
                    dr as nat,
                    er as nat,
                    fr as nat,
                    out@,
                ) == spec_color_endpoints_fold(
                    dm1.depths(),
                    dm2.depths(),
                    pd,
                    hidx2,
                    count as nat,
                    0,
                    0,
                    0,
                    0,
                    0,
                    0,
                    Seq::empty(),
                ),
            decreases count - i,
        {
            let da = match dm1.next(&mut codec) {
                Ok(s) => s,
                Err(e) => { return Err(e) },
            };
            let db = match dm2.next(&mut codec) {
                Ok(s) => s,
                Err(e) => { return Err(e) },
            };
            let dc = match dm1.next(&mut codec) {
                Ok(s) => s,
                Err(e) => { return Err(e) },
            };
            let dd = match dm1.next(&mut codec) {
                Ok(s) => s,
                Err(e) => { return Err(e) },
            };
            let de = match dm2.next(&mut codec) {
                Ok(s) => s,
                Err(e) => { return Err(e) },
            };
            let df = match dm1.next(&mut codec) {
                Ok(s) => s,
                Err(e) => { return Err(e) },
            };
            ar = color_acc(ar, da, 0x1f);
            br = color_acc(br, db, 0x3f);
            cr = color_acc(cr, dc, 0x1f);
            dr = color_acc(dr, dd, 0x1f);
            er = color_acc(er, de, 0x3f);
            fr = color_acc(fr, df, 0x1f);
            let ep0 = pack565(ar, br, cr);
            let ep1 = pack565(dr, er, fr);
            out.push((ep0, ep1));
            i = i + 1;
        }
        if !codec.is_complete() {
            return Err(Error::PaletteTrailingBytes);
        }
        Ok(out)
    }
}

/// Advance one endpoint accumulator: add the delta, keep the channel's
/// low bits (`mask` is 31 or 63).
fn color_acc(acc: u16, delta: u32, mask: u16) -> (r: u16)
    requires
        acc <= mask,
        delta < 16384,
        mask == 0x1f || mask == 0x3f,
    ensures
        r == (acc + delta) as int % (mask + 1),
{
    let t: u32 = acc as u32 + delta;
    proof {
        assert(t & 0x1f == t % 32 && t & 0x3f == t % 64) by (bit_vector);
    }
    (t & mask as u32) as u16
}

/// Pack three channel accumulators into one RGB565 word.
fn pack565(a: u16, b: u16, c: u16) -> (r: u16)
    requires
        a < 32,
        b < 64,
        c < 32,
    ensures
        r == c + b * 32 + a * 2048,
{
    c + b * 32 + a * 2048
}


/// The DXT1 two-bit selector permutation.
pub open spec fn sel_perm4(v: int) -> nat {
    if v == 0 {
        0
    } else if v == 1 {
        2
    } else if v == 2 {
        3
    } else {
        1
    }
}

/// The DXT5 three-bit selector permutation.
pub open spec fn sel_perm8(v: int) -> nat {
    if v == 0 {
        0
    } else if v == 7 {
        1
    } else {
        (v + 1) as nat
    }
}

/// The selector permutation for either family: `wide` picks the three-bit
/// DXT5 one.
pub open spec fn sel_perm(wide: bool, v: int) -> nat {
    if wide {
        sel_perm8(v)
    } else {
        sel_perm4(v)
    }
}

/// One entry's eight selector cells: each decodes a delta `d` and moves
/// `(x, y)` by the Euclidean remainder and quotient of `d`, re-centred by
/// the bias, modulo the selector range.
pub open spec fn spec_sel_cells(
    dm: Seq<u8>,
    bytes: Seq<u8>,
    idx: nat,
    wide: bool,
    k: nat,
    xs: Seq<usize>,
    ys: Seq<usize>,
) -> Option<(Seq<usize>, Seq<usize>, nat)>
    decreases 8 - k,
{
    let m: int = if wide {
        15
    } else {
        7
    };
    let rng: int = if wide {
        8
    } else {
        4
    };
    if k >= 8 {
        Some((xs, ys, idx))
    } else {
        match spec_decode(dm, bytes, idx) {
            Option::None => None,
            Option::Some((dv, i1)) => {
                let x2 = (xs[k as int] + (dv as int) % m - (rng - 1)) % rng;
                let y2 = (ys[k as int] + (dv as int) / m - (rng - 1)) % rng;
                spec_sel_cells(
                    dm,
                    bytes,
                    i1,
                    wide,
                    (k + 1) as nat,
                    xs.update(k as int, x2 as usize),
                    ys.update(k as int, y2 as usize),
                )
            },
        }
    }
}

/// The packed selector word over the first `j` cells: cell `i`
/// contributes its permuted `x` and `y` in the `w`-bit field at weight
/// `2^(w i)` (`w` is 4 for DXT1 cells, 6 for DXT5 cells).
pub open spec fn spec_pack_sel(wide: bool, xs: Seq<usize>, ys: Seq<usize>, j: nat) -> nat
    decreases j,
{
    let w: nat = if wide {
        6
    } else {
        4
    };
    let half: nat = if wide {
        8
    } else {
        4
    };
    if j == 0 {
        0
    } else {
        (spec_pack_sel(wide, xs, ys, (j - 1) as nat) + (sel_perm(wide, xs[j - 1] as int) + half
            * sel_perm(wide, ys[j - 1] as int)) * pow2(w * ((j - 1) as nat))) as nat
    }
}

/// `c` little-endian bytes of `n`.
pub open spec fn spec_le_bytes(n: nat, c: nat) -> Seq<u8> {
    Seq::new(c, |k: int| (((n / pow2((8 * k) as nat)) % 256) as u8))
}

/// The delta fold of a selector palette: per entry the eight cells step,
/// then the permuted cells pack into one little-endian selector word.
pub open spec fn spec_selectors_fold(
    dm: Seq<u8>,
    bytes: Seq<u8>,
    idx: nat,
    wide: bool,
    count: nat,
    xs: Seq<usize>,
    ys: Seq<usize>,
    acc: Seq<Seq<u8>>,
) -> Option<(Seq<Seq<u8>>, nat)>
    decreases count,
{
    let nbytes: nat = if wide {
        6
    } else {
        4
    };
    if count == 0 {
        Some((acc, idx))
    } else {
        match spec_sel_cells(dm, bytes, idx, wide, 0, xs, ys) {
            Option::None => None,
            Option::Some((xs2, ys2, i1)) => {
                let entry = spec_le_bytes(spec_pack_sel(wide, xs2, ys2, 8), nbytes);
                spec_selectors_fold(
                    dm,
                    bytes,
                    i1,
                    wide,
                    (count - 1) as nat,
                    xs2,
                    ys2,
                    acc.push(entry),
                )
            },
        }
    }
}

/// The whole decode of a selector palette from its byte slice.
pub open spec fn spec_selectors(pd: Seq<u8>, wide: bool, count: nat) -> Option<Seq<Seq<u8>>> {
    match spec_get_huffman(pd, 0) {
        Option::None => None,
        Option::Some((kd, i1)) => match spec_selectors_fold(
            kd,
            pd,
            i1,
            wide,
            count,
            Seq::new(8, |_k: int| 0usize),
            Seq::new(8, |_k: int| 0usize),
            Seq::empty(),
        ) {
            Option::None => None,
            Option::Some((es, iend)) => if iend + 7 >= 8 * pd.len() {
                Some(es)
            } else {
                None
            },
        },
    }
}

/// The permuted selector values, as executable lookups.
fn sel_perm4_at(v: usize) -> (r: usize)
    requires
        v < 4,
    ensures
        r == sel_perm4(v as int),
        r < 4,
{
    match v {
        0 => 0,
        1 => 2,
        2 => 3,
        _ => 1,
    }
}

fn sel_perm8_at(v: usize) -> (r: usize)
    requires
        v < 8,
    ensures
        r == sel_perm8(v as int),
        r < 8,
{
    match v {
        0 => 0,
        7 => 1,
        _ => v + 1,
    }
}

/// The packed word stays below the width of the fields packed so far.
proof fn lemma_pack_sel_bound(wide: bool, xs: Seq<usize>, ys: Seq<usize>, j: nat)
    requires
        forall|k: int| 0 <= k < j ==> xs[k] < (if wide { 8int } else { 4int }),
        forall|k: int| 0 <= k < j ==> ys[k] < (if wide { 8int } else { 4int }),
    ensures
        spec_pack_sel(wide, xs, ys, j) < pow2((if wide { 6nat } else { 4nat }) * j),
    decreases j,
{
    let w: nat = if wide { 6 } else { 4 };
    let half: int = if wide { 8 } else { 4 };
    vstd::arithmetic::power2::lemma_pow2_pos(w * j);
    if j == 0 {
        lemma2_to64();
    } else {
        lemma_pack_sel_bound(wide, xs, ys, (j - 1) as nat);
        let p = pow2(w * ((j - 1) as nat)) as int;
        let cell = sel_perm(wide, xs[j - 1] as int) + half * sel_perm(wide, ys[j - 1] as int);
        let prev = spec_pack_sel(wide, xs, ys, (j - 1) as nat) as int;
        assert(pow2(w * j) == pow2(w * ((j - 1) as nat)) * pow2(w)) by {
            vstd::arithmetic::power2::lemma_pow2_adds(w * ((j - 1) as nat), w);
            assert(w * j == w * ((j - 1) as nat) + w) by (nonlinear_arith)
                requires j >= 1;
        }
        lemma2_to64();
        assert(cell < pow2(w)) by {
            if wide {
                assert(sel_perm8(xs[j - 1] as int) < 8 && sel_perm8(ys[j - 1] as int) < 8);
            } else {
                assert(sel_perm4(xs[j - 1] as int) < 4 && sel_perm4(ys[j - 1] as int) < 4);
            }
        }
        assert(prev + cell * p < p * pow2(w)) by (nonlinear_arith)
            requires
                prev < p,
                0 <= cell < pow2(w),
                p > 0,
        ;
    }
}

/// One little-endian byte of a packed word below `2^56`.
fn le_byte(n: u64, k: usize) -> (r: u8)
    requires
        k < 8,
    ensures
        r == (((n as nat) / pow2((8 * k) as nat)) % 256) as u8,
{
    proof {
        vstd::bits::lemma_u64_shr_is_div(n, (8 * k) as u64);
        let sh = (8 * k) as u64;
        assert((n >> sh) & 0xff == (n >> sh) % 256) by (bit_vector);
    }
    ((n >> ((8 * k) as u64)) & 0xff) as u8
}

impl Header {
    /// Decode one selector palette (shared by the color and alpha cases):
    /// the packed words, one per entry.
    #[verifier::rlimit(100)]
    #[verifier::spinoff_prover]
    fn get_selectors(&self, palette: Palette, wide: bool, input: &[u8]) -> (r: Result<
        Vec<u64>,
        Error,
    >)
        requires
            input@.len() <= usize::MAX as nat / 8,
        ensures
            ({
                let cnt = palette.count as nat;
                let off = palette.offset as int;
                let sz = palette.size as int;
                match r {
                    Ok(v) => {
                        &&& v@.len() == cnt
                        &&& (cnt > 0 ==> off + sz <= input@.len() && (spec_selectors(
                            input@.subrange(off, off + sz),
                            wide,
                            cnt,
                        ) matches Some(es) && es.len() == cnt && (forall|i: int|
                            0 <= i < cnt ==> es[i] == spec_le_bytes(
                                v@[i] as nat,
                                if wide {
                                    6nat
                                } else {
                                    4nat
                                },
                            )) && (forall|i: int|
                            0 <= i < cnt ==> v@[i] < pow2(
                                if wide {
                                    48nat
                                } else {
                                    32nat
                                },
                            ))))
                    },
                    Err(e) => cnt > 0 && (off + sz > input@.len() || spec_selectors(
                        input@.subrange(off, off + sz),
                        wide,
                        cnt,
                    ) is None) && (off + sz > input@.len() ==> e == Error::ReadPastEnd) && ((off
                        + sz <= input@.len() && (spec_get_huffman(
                        input@.subrange(off, off + sz),
                        0,
                    ) matches Some((kd, i1)) && (spec_selectors_fold(
                        kd,
                        input@.subrange(off, off + sz),
                        i1,
                        wide,
                        cnt,
                        Seq::new(8, |_k: int| 0usize),
                        Seq::new(8, |_k: int| 0usize),
                        Seq::empty(),
                    ) matches Some((es, iend)) && iend + 7 < 8 * sz))) ==> e
                        == Error::PaletteTrailingBytes),
                }
            }),
    {
        let p = palette;
        let data = match self.get_palette_data(p, input) {
            Ok(Some(d)) => d,
            Ok(None) => { return Ok(Vec::new()) },
            Err(e) => { return Err(e) },
        };
        let ghost pd = data@;
        let mut codec = Codec::new(data);
        let dm = match codec.get_huffman() {
            Ok(h) => h,
            Err(e) => { return Err(e) },
        };
        let ghost hidx = codec.bit_index();
        let m: usize = if wide {
            15
        } else {
            7
        };
        let rng: usize = if wide {
            8
        } else {
            4
        };
        let mut xs: Vec<usize> = vec![0usize; 8];
        let mut ys: Vec<usize> = vec![0usize; 8];
        proof {
            assert(xs@ =~= Seq::new(8, |_k: int| 0usize));
            assert(ys@ =~= Seq::new(8, |_k: int| 0usize));
        }
        let mut out: Vec<u64> = Vec::new();
        proof {
            lemma2_to64();
            assert(out@.map_values(
                |n: u64| spec_le_bytes(n as nat, if wide { 6nat } else { 4nat }),
            ) =~= Seq::<Seq<u8>>::empty());
        }
        let count = p.count as usize;
        let mut i: usize = 0;
        while i < count
            invariant
                codec.wf(),
                codec.bytes() == pd,
                dm.wf(),
                i <= count,
                out@.len() == i,
                p == palette,
                count == p.count,
                p.count > 0,
                p.offset + p.size <= input@.len(),
                pd == input@.subrange(p.offset as int, p.offset + p.size),
                m == (if wide { 15int } else { 7int }),
                rng == (if wide { 8int } else { 4int }),
                xs@.len() == 8,
                ys@.len() == 8,
                forall|k: int| 0 <= k < 8 ==> xs@[k] < rng,
                forall|k: int| 0 <= k < 8 ==> ys@[k] < rng,
                forall|t: int| 0 <= t < i ==> out@[t] < pow2(if wide { 48nat } else { 32nat }),
                spec_get_huffman(pd, 0) == Some((dm.depths(), hidx)),
                spec_selectors_fold(
                    dm.depths(),
                    pd,
                    codec.bit_index(),
                    wide,
                    (count - i) as nat,
                    xs@,
                    ys@,
                    out@.map_values(
                        |n: u64|
                            spec_le_bytes(
                                n as nat,
                                if wide {
                                    6nat
                                } else {
                                    4nat
                                },
                            ),
                    ),
                ) == spec_selectors_fold(
                    dm.depths(),
                    pd,
                    hidx,
                    wide,
                    count as nat,
                    Seq::new(8, |_k: int| 0usize),
                    Seq::new(8, |_k: int| 0usize),
                    Seq::empty(),
                ),
            decreases count - i,
        {
            let ghost xs0 = xs@;
            let ghost ys0 = ys@;
            let ghost idx0 = codec.bit_index();
            let mut fail: Option<Error> = None;
            let mut k: usize = 0;
            while k < 8
                invariant
                    codec.wf(),
                    codec.bytes() == pd,
                    dm.wf(),
                    k <= 8,
                    fail matches Some(e2) ==> spec_sel_cells(
                        dm.depths(),
                        pd,
                        idx0,
                        wide,
                        0,
                        xs0,
                        ys0,
                    ) is None,
                    m == (if wide { 15int } else { 7int }),
                    rng == (if wide { 8int } else { 4int }),
                    xs@.len() == 8,
                    ys@.len() == 8,
                    forall|t: int| 0 <= t < 8 ==> xs@[t] < rng,
                    forall|t: int| 0 <= t < 8 ==> ys@[t] < rng,
                    spec_sel_cells(dm.depths(), pd, idx0, wide, 0, xs0, ys0)
                        == spec_sel_cells(dm.depths(), pd, codec.bit_index(), wide, k as nat, xs@, ys@),
                ensures
                    fail is None ==> k == 8,
                decreases 8 - k,
            {
                let ghost xsk = xs@;
                let ghost ysk = ys@;
                let ghost idxk = codec.bit_index();
                let dv = match dm.next(&mut codec) {
                    Ok(s) => s,
                    Err(e) => {
                        proof {
                            assert(spec_sel_cells(dm.depths(), pd, idxk, wide, k as nat, xsk, ysk)
                                is None);
                        }
                        fail = Some(e);
                        break ;
                    },
                };
                let q = dv as usize / m;
                let rm = dv as usize % m;
                let x2 = (xs[k] + rm + 1) % rng;
                let y2 = (ys[k] + (q % rng) + 1) % rng;
                proof {
                    let xi = xsk[k as int] as int;
                    let yi = ysk[k as int] as int;
                    let dvi = dv as int;
                    let rngi = rng as int;
                    lemma_mod_add_multiples_vanish(xi + dvi % (m as int) - (rngi - 1), rngi);
                    lemma_mod_add_multiples_vanish(yi + dvi / (m as int) - (rngi - 1), rngi);
                    lemma_mod_twice(dvi / (m as int), rngi);
                    lemma_add_mod_noop(yi + 1, dvi / (m as int), rngi);
                    lemma_add_mod_noop(yi + 1, (dvi / (m as int)) % rngi, rngi);
                }
                xs[k] = x2;
                ys[k] = y2;
                k = k + 1;
            }
            match fail {
                Some(e) => { return Err(e) },
                None => {},
            }
            if k < 8 {
                return Err(Error::HuffmanNoMatch);
            }
            let mut nval: u64 = 0;
            let mut mult: u64 = 1;
            proof {
                lemma2_to64();
            }
            let mut j: usize = 0;
            let w: usize = if wide {
                6
            } else {
                4
            };
            while j < 8
                invariant
                    j <= 8,
                    w == (if wide { 6int } else { 4int }),
                    rng == (if wide { 8int } else { 4int }),
                    xs@.len() == 8,
                    ys@.len() == 8,
                    forall|t: int| 0 <= t < 8 ==> xs@[t] < rng,
                    forall|t: int| 0 <= t < 8 ==> ys@[t] < rng,
                    mult == pow2((w * j) as nat),
                    nval == spec_pack_sel(wide, xs@, ys@, j as nat),
                decreases 8 - j,
            {
                proof {
                    lemma_pack_sel_bound(wide, xs@, ys@, j as nat);
                    vstd::arithmetic::power2::lemma_pow2_adds((w * j) as nat, w as nat);
                    assert((w * (j + 1)) as nat == (w * j) as nat + w as nat) by (nonlinear_arith);
                    lemma2_to64();
                    vstd::arithmetic::power2::lemma2_to64_rest();
                    if w * j < 48 {
                        lemma_pow2_strictly_increases((w * j) as nat, 48);
                    }
                    assert(pow2((w * j) as nat) <= pow2(48));
                }
                let cell: u64 = if wide {
                    (sel_perm8_at(xs[j]) + 8 * sel_perm8_at(ys[j])) as u64
                } else {
                    (sel_perm4_at(xs[j]) + 4 * sel_perm4_at(ys[j])) as u64
                };
                proof {
                    let p2 = pow2((w * j) as nat) as int;
                    assert(nval + cell * p2 < p2 * pow2(w as nat)) by (nonlinear_arith)
                        requires
                            nval < p2,
                            0 <= cell < pow2(w as nat),
                            p2 > 0,
                    ;
                }
                nval = nval + cell * mult;
                j = j + 1;
                if j < 8 {
                    mult = mult * (if wide { 64 } else { 16 });
                } else {
                    proof {
                        vstd::arithmetic::power2::lemma_pow2_adds((w * (j - 1)) as nat, w as nat);
                    }
                    mult = mult * (if wide { 64 } else { 16 });
                }
            }
            proof {
                lemma_pack_sel_bound(wide, xs@, ys@, 8);
            }
            let ghost out0 = out@;
            out.push(nval);
            i = i + 1;
            proof {
                assert(out@.map_values(
                    |n: u64| spec_le_bytes(n as nat, if wide { 6nat } else { 4nat }),
                ) =~= out@.subrange(0, out@.len() - 1).map_values(
                    |n: u64| spec_le_bytes(n as nat, if wide { 6nat } else { 4nat }),
                ).push(spec_le_bytes(nval as nat, if wide { 6nat } else { 4nat })));
                assert(out@.subrange(0, out@.len() - 1) =~= out0);
            }
        }
        if !codec.is_complete() {
            return Err(Error::PaletteTrailingBytes);
        }
        Ok(out)
    }
}


impl Header {
    /// Decode the color-selector palette: `count` packed DXT1 selector
    /// words of four little-endian bytes.
    pub fn get_color_selectors(&self, input: &[u8]) -> (r: Result<Vec<[u8; 4]>, Error>)
        requires
            input@.len() <= usize::MAX as nat / 8,
        ensures
            ({
                let cnt = self.color_selectors.count as nat;
                let off = self.color_selectors.offset as int;
                let sz = self.color_selectors.size as int;
                match r {
                    Ok(v) => {
                        &&& v@.len() == cnt
                        &&& (cnt > 0 ==> off + sz <= input@.len() && (spec_selectors(
                            input@.subrange(off, off + sz),
                            false,
                            cnt,
                        ) matches Some(es) && es.len() == cnt && (forall|i: int|
                            0 <= i < cnt ==> v@[i]@ == es[i])))
                    },
                    Err(e) => cnt > 0 && (off + sz > input@.len() || spec_selectors(
                        input@.subrange(off, off + sz),
                        false,
                        cnt,
                    ) is None) && (off + sz > input@.len() ==> e == Error::ReadPastEnd) && ((off
                        + sz <= input@.len() && (spec_get_huffman(
                        input@.subrange(off, off + sz),
                        0,
                    ) matches Some((kd, i1)) && (spec_selectors_fold(
                        kd,
                        input@.subrange(off, off + sz),
                        i1,
                        false,
                        cnt,
                        Seq::new(8, |_k: int| 0usize),
                        Seq::new(8, |_k: int| 0usize),
                        Seq::empty(),
                    ) matches Some((es, iend)) && iend + 7 < 8 * sz))) ==> e
                        == Error::PaletteTrailingBytes),
                }
            }),
    {
        let words = match self.get_selectors(self.color_selectors, false, input) {
            Ok(w) => w,
            Err(e) => { return Err(e) },
        };
        let mut out: Vec<[u8; 4]> = Vec::new();
        let mut i: usize = 0;
        while i < words.len()
            invariant
                i <= words@.len(),
                out@.len() == i,
                forall|t: int|
                    0 <= t < i ==> out@[t]@ == spec_le_bytes(words@[t] as nat, 4),
            decreases words@.len() - i,
        {
            let n = words[i];
            let arr = [le_byte(n, 0), le_byte(n, 1), le_byte(n, 2), le_byte(n, 3)];
            proof {
                assert(arr@ =~= spec_le_bytes(n as nat, 4));
            }
            out.push(arr);
            i = i + 1;
        }
        Ok(out)
    }

    /// Decode the alpha-selector palette: `count` packed DXT5 selector
    /// words of six little-endian bytes.
    pub fn get_alpha_selectors(&self, input: &[u8]) -> (r: Result<Vec<[u8; 6]>, Error>)
        requires
            input@.len() <= usize::MAX as nat / 8,
        ensures
            ({
                let cnt = self.alpha_selectors.count as nat;
                let off = self.alpha_selectors.offset as int;
                let sz = self.alpha_selectors.size as int;
                match r {
                    Ok(v) => {
                        &&& v@.len() == cnt
                        &&& (cnt > 0 ==> off + sz <= input@.len() && (spec_selectors(
                            input@.subrange(off, off + sz),
                            true,
                            cnt,
                        ) matches Some(es) && es.len() == cnt && (forall|i: int|
                            0 <= i < cnt ==> v@[i]@ == es[i])))
                    },
                    Err(e) => cnt > 0 && (off + sz > input@.len() || spec_selectors(
                        input@.subrange(off, off + sz),
                        true,
                        cnt,
                    ) is None) && (off + sz > input@.len() ==> e == Error::ReadPastEnd) && ((off
                        + sz <= input@.len() && (spec_get_huffman(
                        input@.subrange(off, off + sz),
                        0,
                    ) matches Some((kd, i1)) && (spec_selectors_fold(
                        kd,
                        input@.subrange(off, off + sz),
                        i1,
                        true,
                        cnt,
                        Seq::new(8, |_k: int| 0usize),
                        Seq::new(8, |_k: int| 0usize),
                        Seq::empty(),
                    ) matches Some((es, iend)) && iend + 7 < 8 * sz))) ==> e
                        == Error::PaletteTrailingBytes),
                }
            }),
    {
        let words = match self.get_selectors(self.alpha_selectors, true, input) {
            Ok(w) => w,
            Err(e) => { return Err(e) },
        };
        let mut out: Vec<[u8; 6]> = Vec::new();
        let mut i: usize = 0;
        while i < words.len()
            invariant
                i <= words@.len(),
                out@.len() == i,
                forall|t: int|
                    0 <= t < i ==> out@[t]@ == spec_le_bytes(words@[t] as nat, 6),
            decreases words@.len() - i,
        {
            let n = words[i];
            let arr = [
                le_byte(n, 0),
                le_byte(n, 1),
                le_byte(n, 2),
                le_byte(n, 3),
                le_byte(n, 4),
                le_byte(n, 5),
            ];
            proof {
                assert(arr@ =~= spec_le_bytes(n as nat, 6));
            }
            out.push(arr);
            i = i + 1;
        }
        Ok(out)
    }
}

/// The five coding tables and four palettes a level decode works from.
#[derive(Debug)]
pub struct Tables {
    pub chunk_encoding: Huffman,
    pub color_endpoint: Table<(u16, u16)>,
    pub color_selector: Table<[u8; 4]>,
    pub alpha_endpoint: Table<(u8, u8)>,
    pub alpha_selector: Table<[u8; 6]>,
}

impl Tables {
    pub open spec fn wf(self) -> bool {
        &&& self.chunk_encoding.wf()
        &&& self.color_endpoint.wf()
        &&& self.color_selector.wf()
        &&& self.alpha_endpoint.wf()
        &&& self.alpha_selector.wf()
    }
}

/// The five consecutive Huffman tables of the main table stream, with the
/// bit index after the last.
pub open spec fn spec_table_huffmans(td: Seq<u8>) -> Option<(
    Seq<u8>,
    Seq<u8>,
    Seq<u8>,
    Seq<u8>,
    Seq<u8>,
    nat,
)> {
    match spec_get_huffman(td, 0) {
        Option::None => None,
        Option::Some((e0, i0)) => match spec_get_huffman(td, i0) {
            Option::None => None,
            Option::Some((e1, i1)) => match spec_get_huffman(td, i1) {
                Option::None => None,
                Option::Some((e2, i2)) => match spec_get_huffman(td, i2) {
                    Option::None => None,
                    Option::Some((e3, i3)) => match spec_get_huffman(td, i3) {
                        Option::None => None,
                        Option::Some((e4, i4)) => Some((e0, e1, e2, e3, e4, i4)),
                    },
                },
            },
        },
    }
}

/// Whether one palette decodes: absent, or its slice is in bounds and
/// the whole delta decode (including the trailing-byte check) goes
/// through. `wide` distinguishes nothing here; each wrapper below fixes
/// the decode spec it means.
pub open spec fn spec_color_endpoints_ok(p: Palette, input: Seq<u8>) -> bool {
    p.count == 0 || (p.offset + p.size <= input.len() && spec_color_endpoints(
        input.subrange(p.offset as int, p.offset + p.size),
        p.count as nat,
    ) is Some)
}

pub open spec fn spec_alpha_endpoints_ok(p: Palette, input: Seq<u8>) -> bool {
    p.count == 0 || (p.offset + p.size <= input.len() && spec_alpha_endpoints(
        input.subrange(p.offset as int, p.offset + p.size),
        p.count as nat,
    ) is Some)
}

pub open spec fn spec_selectors_ok(p: Palette, wide: bool, input: Seq<u8>) -> bool {
    p.count == 0 || (p.offset + p.size <= input.len() && spec_selectors(
        input.subrange(p.offset as int, p.offset + p.size),
        wide,
        p.count as nat,
    ) is Some)
}

impl Header {
    /// Whether the whole table build succeeds: the table slice is in
    /// bounds, five Huffman tables decode and end at the trailing-byte
    /// boundary, and all four palettes decode.
    pub open spec fn spec_table_ok(self, input: Seq<u8>) -> bool {
        let td = input.subrange(self.table_offset as int, self.table_offset + self.table_size);
        &&& self.table_offset + self.table_size <= input.len()
        &&& (spec_table_huffmans(td) matches Some((e0, e1, e2, e3, e4, iend)) && iend + 7 >= 8
            * td.len())
        &&& spec_color_endpoints_ok(self.color_endpoints, input)
        &&& spec_selectors_ok(self.color_selectors, false, input)
        &&& spec_alpha_endpoints_ok(self.alpha_endpoints, input)
        &&& spec_selectors_ok(self.alpha_selectors, true, input)
    }
}

impl Header {
    /// The table stream's byte slice, when its descriptor is sane.
    fn get_table_data<'a>(&self, input: &'a [u8]) -> (r: Result<&'a [u8], Error>)
        ensures
            match r {
                Ok(s) => self.table_offset + self.table_size <= input@.len() && s@
                    == input@.subrange(
                    self.table_offset as int,
                    self.table_offset + self.table_size,
                ),
                Err(e) => e == Error::ReadPastEnd && self.table_offset + self.table_size
                    > input@.len(),
            },
    {
        if !(self.table_offset as usize <= input.len() && self.table_size as usize <= input.len()
            - self.table_offset as usize) {
            return Err(Error::ReadPastEnd);
        }
        Ok(
            vstd::slice::slice_subrange(
                input,
                self.table_offset as usize,
                self.table_offset as usize + self.table_size as usize,
            ),
        )
    }

    /// Read the five Huffman tables from the table stream and decode the
    /// four shared palettes.
    pub fn get_table(&self, input: &[u8]) -> (r: Result<Tables, Error>)
        requires
            input@.len() <= usize::MAX as nat / 8,
        ensures
            ({
                let td = input@.subrange(
                    self.table_offset as int,
                    self.table_offset + self.table_size,
                );
                match r {
                    Ok(t) => {
                        &&& self.table_offset + self.table_size <= input@.len()
                        &&& (spec_table_huffmans(td) matches Some((e0, e1, e2, e3, e4, iend)) && {
                            &&& iend + 7 >= 8 * td.len()
                            &&& t.chunk_encoding.depths() == e0
                            &&& t.color_endpoint.delta.depths() == e1
                            &&& t.color_selector.delta.depths() == e2
                            &&& t.alpha_endpoint.delta.depths() == e3
                            &&& t.alpha_selector.delta.depths() == e4
                        })
                        &&& t.wf()
                        &&& t.color_endpoint.entries@.len() == self.color_endpoints.count
                        &&& t.color_selector.entries@.len() == self.color_selectors.count
                        &&& t.alpha_endpoint.entries@.len() == self.alpha_endpoints.count
                        &&& t.alpha_selector.entries@.len() == self.alpha_selectors.count
                        &&& (self.color_endpoints.count > 0 ==> Some(t.color_endpoint.entries@)
                            == spec_color_endpoints(
                            input@.subrange(
                                self.color_endpoints.offset as int,
                                self.color_endpoints.offset + self.color_endpoints.size,
                            ),
                            self.color_endpoints.count as nat,
                        ))
                        &&& (self.alpha_endpoints.count > 0 ==> Some(t.alpha_endpoint.entries@)
                            == spec_alpha_endpoints(
                            input@.subrange(
                                self.alpha_endpoints.offset as int,
                                self.alpha_endpoints.offset + self.alpha_endpoints.size,
                            ),
                            self.alpha_endpoints.count as nat,
                        ))
                        &&& (self.color_selectors.count > 0 ==> (spec_selectors(
                            input@.subrange(
                                self.color_selectors.offset as int,
                                self.color_selectors.offset + self.color_selectors.size,
                            ),
                            false,
                            self.color_selectors.count as nat,
                        ) matches Some(es) && (forall|i: int|
                            0 <= i < es.len() ==> t.color_selector.entries@[i]@ == es[i])))
                        &&& (self.alpha_selectors.count > 0 ==> (spec_selectors(
                            input@.subrange(
                                self.alpha_selectors.offset as int,
                                self.alpha_selectors.offset + self.alpha_selectors.size,
                            ),
                            true,
                            self.alpha_selectors.count as nat,
                        ) matches Some(es) && (forall|i: int|
                            0 <= i < es.len() ==> t.alpha_selector.entries@[i]@ == es[i])))
                    },
                    Err(e) => {
                        &&& (self.table_offset + self.table_size > input@.len() ==> e
                            == Error::ReadPastEnd)
                        &&& ((self.table_offset + self.table_size <= input@.len()
                            && (spec_table_huffmans(td) matches Some((e0, e1, e2, e3, e4, iend)
                        ) && iend + 7 < 8 * td.len())) ==> e == Error::TableTrailingBytes)
                    },
                }
            }),
            r is Ok <==> self.spec_table_ok(input@),
    {
        let data = match self.get_table_data(input) {
            Ok(d) => d,
            Err(e) => { return Err(e) },
        };
        let mut codec = Codec::new(data);
        let chunk_encoding = match codec.get_huffman() {
            Ok(h) => h,
            Err(e) => { return Err(e) },
        };
        let color_endpoint_delta = match codec.get_huffman() {
            Ok(h) => h,
            Err(e) => { return Err(e) },
        };
        let color_selector_delta = match codec.get_huffman() {
            Ok(h) => h,
            Err(e) => { return Err(e) },
        };
        let alpha_endpoint_delta = match codec.get_huffman() {
            Ok(h) => h,
            Err(e) => { return Err(e) },
        };
        let alpha_selector_delta = match codec.get_huffman() {
            Ok(h) => h,
            Err(e) => { return Err(e) },
        };
        if !codec.is_complete() {
            return Err(Error::TableTrailingBytes);
        }
        let color_endpoints = match self.get_color_endpoints(input) {
            Ok(v) => v,
            Err(e) => { return Err(e) },
        };
        let color_selectors = match self.get_color_selectors(input) {
            Ok(v) => v,
            Err(e) => { return Err(e) },
        };
        let alpha_endpoints = match self.get_alpha_endpoints(input) {
            Ok(v) => v,
            Err(e) => { return Err(e) },
        };
        let alpha_selectors = match self.get_alpha_selectors(input) {
            Ok(v) => v,
            Err(e) => { return Err(e) },
        };
        Ok(
            Tables {
                chunk_encoding,
                color_endpoint: Table::new(color_endpoint_delta, color_endpoints),
                color_selector: Table::new(color_selector_delta, color_selectors),
                alpha_endpoint: Table::new(alpha_endpoint_delta, alpha_endpoints),
                alpha_selector: Table::new(alpha_selector_delta, alpha_selectors),
            },
        )
    }
}


impl Header {
    /// The block family the container's format decodes through, if any.
    pub open spec fn spec_block_format(self) -> Option<unpack::BlockFormat> {
        match self.format {
            Format::Dxt1 => Some(unpack::BlockFormat::Dxt1),
            Format::Dxt5 | Format::Dxt5AGBR | Format::Dxt5CCxY | Format::Dxt5xGBR
                | Format::Dxt5xGxR => Some(unpack::BlockFormat::Dxt5),
            Format::Dxt5A => Some(unpack::BlockFormat::Dxt5A),
            Format::DxnXY | Format::DxnYX => Some(unpack::BlockFormat::Dxn),
            Format::Dxt3 | Format::Etc1 | Format::Invalid => None,
        }
    }

    /// The byte range of mip level `idx`: from its offset to the next
    /// level's offset (or the file size for the last level), when those
    /// bounds are sane.
    pub open spec fn spec_level_range(self, input_len: int, idx: int) -> Option<(int, int)> {
        if 0 <= idx < self.level_offset@.len() {
            let start = self.level_offset@[idx] as int;
            let end = if idx + 1 < self.level_offset@.len() {
                self.level_offset@[idx + 1] as int
            } else {
                self.file_size as int
            };
            if start <= end <= input_len {
                Some((start, end))
            } else {
                None
            }
        } else {
            None
        }
    }

    /// The byte slice of mip level `idx`.
    pub fn get_level_data<'a>(&self, input: &'a [u8], idx: usize) -> (r: Option<&'a [u8]>)
        ensures
            match r {
                Some(s) => self.spec_level_range(input@.len() as int, idx as int) matches Some((
                    start,
                    end,
                )) && s@ == input@.subrange(start, end),
                None => self.spec_level_range(input@.len() as int, idx as int) is None,
            },
    {
        if idx >= self.level_offset.len() {
            return None;
        }
        let start = self.level_offset[idx] as usize;
        let end = if idx + 1 < self.level_offset.len() {
            self.level_offset[idx + 1] as usize
        } else {
            self.file_size as usize
        };
        if !(start <= end && end <= input.len()) {
            return None;
        }
        Some(vstd::slice::slice_subrange(input, start, end))
    }

    /// The level buffers this decoder allocates must be addressable, with
    /// room for the rounding the mip chain introduces.
    pub open spec fn spec_unpack_fits(self) -> bool {
        ((self.width as int + 7) / 4) * ((self.height as int + 7) / 4) * 16 * (
        self.face_count as int) <= usize::MAX as int
    }

    /// Whether decoding level `idx` succeeds: the level exists, its byte
    /// range is sane, the format and face count are decodable, and the
    /// chunk fold over the level slice consumes it to its trailing-byte
    /// boundary.
    pub open spec fn spec_unpack_level_ok(self, tables: Tables, input: Seq<u8>, idx: int) -> bool {
        &&& 0 <= idx < self.level_count
        &&& 1 <= self.face_count
        &&& self.spec_block_format() is Some
        &&& self.spec_level_range(input.len() as int, idx) matches Some((start, end))
            && (self.spec_block_format() matches Some(bf) && (unpack::spec_chunks(
            tables,
            input.subrange(start, end),
            unpack::UnpackState::start(0),
            bf,
            unpack::spec_chunk_count(
                level_extent_spec(self.width, idx as nat),
                level_extent_spec(self.height, idx as nat),
                self.face_count,
            ) as nat,
        ) matches Some(fin) && fin.idx + 7 >= 8 * (end - start)))
    }

    /// Decode mip level `idx` into its raw DXT block bytes.
    pub fn unpack_level(&self, tables: &Tables, input: &[u8], idx: usize) -> (r: Result<
        Vec<u8>,
        Error,
    >)
        requires
            tables.wf(),
            input@.len() <= usize::MAX as nat / 8,
            self.spec_unpack_fits(),
        ensures
            match r {
                Ok(v) => {
                    &&& idx < self.level_count
                    &&& 1 <= self.face_count
                    &&& v@.len() == ((vstd::math::max(
                        1,
                        self.width as int / pow2(idx as nat) as int,
                    ) + 3) / 4) * ((vstd::math::max(
                        1,
                        self.height as int / pow2(idx as nat) as int,
                    ) + 3) / 4) * (self.spec_block_size() as int) * (self.face_count as int)
                    &&& self.spec_block_format() is Some
                    &&& self.spec_level_range(input@.len() as int, idx as int) matches Some((
                        start,
                        end,
                    )) && (spec_block_format_of(*self) matches Some(bf) && (unpack::spec_chunks(
                        *tables,
                        input@.subrange(start, end),
                        unpack::UnpackState::start(0),
                        bf,
                        unpack::spec_chunk_count(
                            level_extent_spec(self.width, idx as nat),
                            level_extent_spec(self.height, idx as nat),
                            self.face_count,
                        ) as nat,
                    ) matches Some(fin) && fin.idx + 7 >= 8 * (end - start))
                        && unpack::spec_level_contents(
                        *tables,
                        input@.subrange(start, end),
                        unpack::UnpackState::start(0),
                        bf,
                        level_extent_spec(self.width, idx as nat),
                        level_extent_spec(self.height, idx as nat),
                        self.face_count,
                        unpack::spec_chunk_count(
                            level_extent_spec(self.width, idx as nat),
                            level_extent_spec(self.height, idx as nat),
                            self.face_count,
                        ),
                        v@,
                    ) && (forall|p: int|
                        0 <= p < v@.len() && !unpack::spec_in_some_block(
                            p,
                            level_extent_spec(self.width, idx as nat),
                            level_extent_spec(self.height, idx as nat),
                            self.face_count,
                            unpack::spec_block_bytes(bf) as int,
                        ) ==> v@[p] == 0))
                },
                Err(e) => {
                    &&& ((self.spec_level_range(input@.len() as int, idx as int) is None || idx
                        >= self.level_count) ==> e == Error::LevelOutOfRange)
                    &&& ((self.spec_level_range(input@.len() as int, idx as int) is Some && idx
                        < self.level_count && (self.face_count == 0 || self.spec_block_format()
                        is None)) ==> e == Error::UnsupportedFormat)
                },
            },
            r is Ok <==> self.spec_unpack_level_ok(*tables, input@, idx as int),
    {
        let data = match self.get_level_data(input, idx) {
            Some(d) => d,
            None => { return Err(Error::LevelOutOfRange) },
        };
        let (width, height) = match self.get_level_info(idx) {
            Some(wh) => wh,
            None => { return Err(Error::LevelOutOfRange) },
        };
        if self.face_count == 0 {
            return Err(Error::UnsupportedFormat);
        }
        proof {
            lemma_level_fits(*self, width, height, idx as nat);
            vstd::arithmetic::power2::lemma_pow2_pos(idx as nat);
            let p = pow2(idx as nat) as int;
            assert(self.width as int / p <= self.width as int) by (nonlinear_arith)
                requires
                    p >= 1,
                    self.width >= 0,
            ;
            assert(self.height as int / p <= self.height as int) by (nonlinear_arith)
                requires
                    p >= 1,
                    self.height >= 0,
            ;
            assert(width == level_extent_spec(self.width, idx as nat));
            assert(height == level_extent_spec(self.height, idx as nat));
        }
        let mut codec = Codec::new(data);
        let r = match self.format {
            Format::Dxt1 => unpack::Dxt1::unpack(tables, &mut codec, width, height, self.face_count),
            Format::Dxt5 | Format::Dxt5AGBR | Format::Dxt5CCxY | Format::Dxt5xGBR
                | Format::Dxt5xGxR => unpack::Dxt5::unpack(
                tables,
                &mut codec,
                width,
                height,
                self.face_count,
            ),
            Format::Dxt5A => unpack::Dxt5A::unpack(tables, &mut codec, width, height, self.face_count),
            Format::DxnXY | Format::DxnYX => unpack::Dxn::unpack(
                tables,
                &mut codec,
                width,
                height,
                self.face_count,
            ),
            Format::Dxt3 | Format::Etc1 | Format::Invalid => Err(Error::UnsupportedFormat),
        };
        r
    }
}

/// The block family of a header's format (free form, for contracts).
pub open spec fn spec_block_format_of(h: Header) -> Option<unpack::BlockFormat> {
    h.spec_block_format()
}

/// One base extent halved `idx` times and clamped at 1, as a 16-bit value.
pub open spec fn level_extent_spec(v: u16, idx: nat) -> u16 {
    vstd::math::max(1, v as int / pow2(idx) as int) as u16
}

/// A mip level's extents never need more buffer than the padded base
/// extents allow for.
proof fn lemma_level_fits(h: Header, width: u16, height: u16, idx: nat)
    requires
        h.spec_unpack_fits(),
        1 <= h.face_count,
        width == vstd::math::max(1, h.width as int / pow2(idx) as int),
        height == vstd::math::max(1, h.height as int / pow2(idx) as int),
    ensures
        unpack::spec_level_fits(width, height, h.face_count),
{
    vstd::arithmetic::power2::lemma_pow2_pos(idx);
    let p = pow2(idx) as int;
    assert(h.width as int / p <= h.width as int) by (nonlinear_arith)
        requires
            p >= 1,
            h.width >= 0,
    ;
    assert(h.height as int / p <= h.height as int) by (nonlinear_arith)
        requires
            p >= 1,
            h.height >= 0,
    ;
    vstd::arithmetic::div_mod::lemma_div_is_ordered(
        width as int + 3,
        h.width as int + 7,
        4,
    );
    vstd::arithmetic::div_mod::lemma_div_is_ordered(
        height as int + 3,
        h.height as int + 7,
        4,
    );
    let a1 = unpack::spec_blocks(width);
    let a2 = (h.width as int + 7) / 4;
    let b1 = unpack::spec_blocks(height);
    let b2 = (h.height as int + 7) / 4;
    let fc = h.face_count as int;
    assert(a1 * b1 * 16 * fc <= a2 * b2 * 16 * fc) by (nonlinear_arith)
        requires
            0 <= a1 <= a2,
            0 <= b1 <= b2,
            fc >= 1,
    ;
}

} // verus!
