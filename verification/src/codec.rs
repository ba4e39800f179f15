//! MSB-first bit cursor over a byte slice, plus the canonical Huffman
//! tables decoded through it.

use vstd::prelude::*;
use vstd::arithmetic::power2::{
    pow2, lemma_pow2_unfold, lemma_pow2_pos, lemma_pow2_strictly_increases, lemma2_to64,
};
use crate::Error;

verus! {

/// The bit at MSB-first position `i` of `bytes`; positions past the end of
/// the stream read as zero (the zero-padded lookahead model).
pub open spec fn stream_bit(bytes: Seq<u8>, i: nat) -> u64 {
    if i < 8 * bytes.len() {
        ((bytes[(i / 8) as int] >> ((7 - (i % 8)) as u8)) & 1) as u64
    } else {
        0
    }
}

/// The value of the `n` bits starting at bit position `start`, read
/// MSB-first and right-justified; bits past the end read as zero.
pub open spec fn stream_bits(bytes: Seq<u8>, start: nat, n: nat) -> nat
    decreases n,
{
    if n == 0 {
        0
    } else {
        (2 * stream_bits(bytes, start, (n - 1) as nat)
            + stream_bit(bytes, (start + n - 1) as nat)) as nat
    }
}

pub proof fn lemma_stream_bit_is_binary(bytes: Seq<u8>, i: nat)
    ensures
        stream_bit(bytes, i) == 0 || stream_bit(bytes, i) == 1,
{
    if i < 8 * bytes.len() {
        let b = bytes[(i / 8) as int];
        let sh = (7 - (i % 8)) as u8;
        assert((b >> sh) & 1 == 0 || (b >> sh) & 1 == 1) by (bit_vector);
    }
}

pub proof fn lemma_stream_bits_bound(bytes: Seq<u8>, start: nat, n: nat)
    ensures
        stream_bits(bytes, start, n) < pow2(n),
    decreases n,
{
    if n == 0 {
        lemma2_to64();
    } else {
        lemma_stream_bits_bound(bytes, start, (n - 1) as nat);
        lemma_stream_bit_is_binary(bytes, (start + n - 1) as nat);
        lemma_pow2_unfold(n);
    }
}

/// MSB-first bit cursor over a byte slice. `bit_index` counts consumed
/// bits and never exceeds `bit_len`, the stream length in bits.
pub struct Codec<'a> {
    buffer: &'a [u8],
    index: usize,
}

impl<'a> Codec<'a> {
    /// The underlying bytes.
    pub closed spec fn bytes(self) -> Seq<u8> {
        self.buffer@
    }

    /// The cursor, in bits from the start of the stream.
    pub closed spec fn bit_index(self) -> nat {
        self.index as nat
    }

    /// The stream length in bits.
    pub open spec fn bit_len(self) -> nat {
        8 * self.bytes().len()
    }

    pub open spec fn wf(self) -> bool {
        &&& self.bit_index() <= self.bit_len()
        &&& self.bytes().len() <= usize::MAX as nat / 8
    }

    pub fn new(input: &'a [u8]) -> (c: Codec<'a>)
        requires
            input@.len() <= usize::MAX as nat / 8,
        ensures
            c.wf(),
            c.bytes() == input@,
            c.bit_index() == 0,
    {
        Codec { buffer: input, index: 0 }
    }

    /// The bit at position `i`, for positions inside the stream.
    fn bit_at(&self, i: usize) -> (b: u64)
        requires
            self.wf(),
            i < self.bit_len(),
        ensures
            b == stream_bit(self.bytes(), i as nat),
    {
        let byte = self.buffer[i / 8];
        let sh: u8 = (7 - (i % 8)) as u8;
        ((byte >> sh) & 1) as u64
    }

    /// Non-consuming lookahead: the next `n` bits right-justified, with any
    /// deficit past the end of the stream read as zero.
    pub fn look_bits(&self, n: usize) -> (r: u64)
        requires
            self.wf(),
            n <= 64,
        ensures
            r == stream_bits(self.bytes(), self.bit_index(), n as nat),
    {
        let remaining = self.buffer.len() * 8 - self.index;
        let mut r: u64 = 0;
        let mut i: usize = 0;
        while i < n
            invariant
                self.wf(),
                n <= 64,
                i <= n,
                remaining == self.bit_len() - self.bit_index(),
                r == stream_bits(self.bytes(), self.bit_index(), i as nat),
            decreases n - i,
        {
            let b = if i < remaining {
                self.bit_at(self.index + i)
            } else {
                proof {
                    assert(stream_bit(self.bytes(), (self.bit_index() + i) as nat) == 0);
                }
                0u64
            };
            proof {
                lemma_stream_bits_bound(self.bytes(), self.bit_index(), i as nat);
                lemma_stream_bit_is_binary(self.bytes(), (self.bit_index() + i) as nat);
                lemma_pow2_unfold((i + 1) as nat);
                if i + 1 < 64 {
                    vstd::arithmetic::power2::lemma_pow2_strictly_increases((i + 1) as nat, 64);
                }
                lemma2_to64();
            }
            r = r * 2 + b;
            i = i + 1;
        }
        r
    }

    /// Consume and return the next `n` bits; fails without moving the
    /// cursor when fewer than `n` bits remain.
    pub fn read_bits(&mut self, n: usize) -> (r: Result<u64, Error>)
        requires
            old(self).wf(),
            n <= 64,
        ensures
            final(self).wf(),
            final(self).bytes() == old(self).bytes(),
            match r {
                Ok(v) => {
                    &&& old(self).bit_index() + n <= old(self).bit_len()
                    &&& final(self).bit_index() == old(self).bit_index() + n
                    &&& v == stream_bits(old(self).bytes(), old(self).bit_index(), n as nat)
                },
                Err(e) => {
                    &&& e == Error::ReadPastEnd
                    &&& old(self).bit_index() + n > old(self).bit_len()
                    &&& final(self).bit_index() == old(self).bit_index()
                },
            },
    {
        let remaining = self.buffer.len() * 8 - self.index;
        if n > remaining {
            return Err(Error::ReadPastEnd);
        }
        let r = self.look_bits(n);
        self.index = self.index + n;
        Ok(r)
    }

    /// Advance the cursor by `n` bits without reading them.
    pub fn skip_bits(&mut self, n: usize)
        requires
            old(self).wf(),
            old(self).bit_index() + n <= old(self).bit_len(),
        ensures
            final(self).wf(),
            final(self).bytes() == old(self).bytes(),
            final(self).bit_index() == old(self).bit_index() + n,
    {
        self.index = self.index + n;
    }

    /// The cursor position in bits.
    pub fn current(&self) -> (r: usize)
        ensures
            r == self.bit_index(),
    {
        self.index
    }

    /// The stream length in bits.
    pub fn len(&self) -> (r: usize)
        requires
            self.wf(),
        ensures
            r == self.bit_len(),
    {
        self.buffer.len() * 8
    }

    /// Whether the stream is consumed up to its trailing-byte boundary:
    /// at most 7 pad bits remain.
    pub open spec fn spec_is_complete(self) -> bool {
        self.bit_index() + 7 >= self.bit_len()
    }

    pub fn is_complete(&self) -> (r: bool)
        requires
            self.wf(),
        ensures
            r == self.spec_is_complete(),
    {
        self.buffer.len() * 8 - self.index <= 7
    }
}

/// Code depths run from 1 to this inclusive bound; depth 0 marks an
/// absent symbol.
pub const MAX_DEPTH: usize = 16;

/// Upper bound on the alphabet size of a transmitted Huffman table.
pub const MAX_SYMBOL_COUNT: usize = 8192;

/// Width of the symbol-count field in the table stream.
pub const MAX_SYMBOL_COUNT_BIT: usize = 14;

/// Number of symbols of depth `d` among the first `j` entries of `depths`.
pub open spec fn count_upto(depths: Seq<u8>, d: nat, j: nat) -> nat
    decreases j,
{
    if j == 0 {
        0
    } else {
        (count_upto(depths, d, (j - 1) as nat) + (if depths[j - 1] == d {
            1nat
        } else {
            0nat
        })) as nat
    }
}

/// Number of symbols of depth `d` in the whole alphabet.
pub open spec fn count_depth(depths: Seq<u8>, d: nat) -> nat {
    count_upto(depths, d, depths.len())
}

/// `depth_bound[0] = 0`; `depth_bound[d] = 2 depth_bound[d-1] + depth_count[d]`.
/// Canonical codes of depth `d` occupy `[2 depth_bound[d-1], depth_bound[d])`.
pub open spec fn depth_bound(depths: Seq<u8>, d: nat) -> nat
    decreases d,
{
    if d == 0 {
        0
    } else {
        (2 * depth_bound(depths, (d - 1) as nat) + count_depth(depths, d)) as nat
    }
}

/// The largest depth in `1..=d` that some symbol uses, or 0 if none does.
pub open spec fn max_depth_upto(depths: Seq<u8>, d: nat) -> nat
    decreases d,
{
    if d == 0 {
        0
    } else if count_depth(depths, d) > 0 {
        d
    } else {
        max_depth_upto(depths, (d - 1) as nat)
    }
}

/// The largest depth in use, or 0 for an empty table.
pub open spec fn spec_max_depth(depths: Seq<u8>) -> nat {
    max_depth_upto(depths, MAX_DEPTH as nat)
}

/// The Kraft equality for complete prefix trees, with the two degenerate
/// exceptions: the empty table and the single-symbol table at depth 1.
pub open spec fn kraft_ok(depths: Seq<u8>) -> bool {
    let m = spec_max_depth(depths);
    depth_bound(depths, m) == pow2(m) || (m <= 1 && depth_bound(depths, m) == m)
}

/// The canonical code of coded symbol `s`: within its depth, codes are
/// consecutive starting at `2 depth_bound[d-1]`, assigned in symbol order.
pub open spec fn spec_code(depths: Seq<u8>, s: int) -> nat {
    (2 * depth_bound(depths, (depths[s] - 1) as nat) + count_upto(
        depths,
        depths[s] as nat,
        s as nat,
    )) as nat
}

pub proof fn lemma_count_upto_le(depths: Seq<u8>, d: nat, j: nat)
    ensures
        count_upto(depths, d, j) <= j,
    decreases j,
{
    if j > 0 {
        lemma_count_upto_le(depths, d, (j - 1) as nat);
    }
}

pub proof fn lemma_count_upto_mono(depths: Seq<u8>, d: nat, j1: nat, j2: nat)
    requires
        j1 <= j2,
    ensures
        count_upto(depths, d, j1) <= count_upto(depths, d, j2),
    decreases j2,
{
    if j1 < j2 {
        lemma_count_upto_mono(depths, d, j1, (j2 - 1) as nat);
    }
}

pub proof fn lemma_max_depth_le(depths: Seq<u8>, d: nat)
    ensures
        max_depth_upto(depths, d) <= d,
    decreases d,
{
    if d > 0 {
        lemma_max_depth_le(depths, (d - 1) as nat);
    }
}

/// The accumulated bound stays small: it never exceeds `len (2^d - 1)`.
pub proof fn lemma_bound_le(depths: Seq<u8>, d: nat)
    ensures
        depth_bound(depths, d) <= depths.len() * ((pow2(d) - 1) as nat),
    decreases d,
{
    lemma_pow2_pos(d);
    if d == 0 {
        lemma2_to64();
    } else {
        lemma_bound_le(depths, (d - 1) as nat);
        lemma_count_upto_le(depths, d, depths.len());
        lemma_pow2_unfold(d);
        lemma_pow2_pos((d - 1) as nat);
        let len = depths.len() as int;
        let p = pow2((d - 1) as nat) as int;
        let b = depth_bound(depths, (d - 1) as nat) as int;
        let c = count_depth(depths, d) as int;
        assert(2 * b + c <= len * (2 * p - 1)) by (nonlinear_arith)
            requires
                b <= len * (p - 1),
                c <= len,
                p >= 1,
                len >= 0,
                b >= 0,
                c >= 0,
        ;
    }
}

/// With a bounded alphabet the bound fits comfortably in a `u32`.
pub proof fn lemma_bound_fits(depths: Seq<u8>, d: nat)
    requires
        depths.len() < 16384,
        d <= 16,
    ensures
        depth_bound(depths, d) < 0x40000000,
{
    lemma_bound_le(depths, d);
    lemma2_to64();
    if d < 16 {
        lemma_pow2_strictly_increases(d, 16);
    }
    let len = depths.len() as int;
    let q = (pow2(d) - 1) as int;
    assert(len * q < 0x40000000) by (nonlinear_arith)
        requires
            0 <= len < 16384,
            0 <= q <= 65535,
    ;
}

/// Two coded symbols of the same depth never share a code: canonical
/// assignment is injective, so the reverse map inverts the forward map.
pub proof fn lemma_code_injective(depths: Seq<u8>, s1: int, s2: int)
    requires
        0 <= s1 < depths.len(),
        0 <= s2 < depths.len(),
        depths[s1] != 0,
        depths[s1] == depths[s2],
        s1 != s2,
    ensures
        spec_code(depths, s1) != spec_code(depths, s2),
{
    let d = depths[s1] as nat;
    if s1 < s2 {
        assert(count_upto(depths, d, (s1 + 1) as nat) == count_upto(depths, d, s1 as nat) + 1);
        lemma_count_upto_mono(depths, d, (s1 + 1) as nat, s2 as nat);
    } else {
        assert(count_upto(depths, d, (s2 + 1) as nat) == count_upto(depths, d, s2 as nat) + 1);
        lemma_count_upto_mono(depths, d, (s2 + 1) as nat, s1 as nat);
    }
}

/// A stream value splits at any point: the first `d` bits are the high
/// digits of the `m`-bit lookahead.
#[verifier::rlimit(50)]
#[verifier::spinoff_prover]
pub proof fn lemma_stream_bits_split(bytes: Seq<u8>, start: nat, d: nat, m: nat)
    requires
        d <= m,
    ensures
        stream_bits(bytes, start, m) == stream_bits(bytes, start, d) * pow2((m - d) as nat)
            + stream_bits(bytes, (start + d) as nat, (m - d) as nat),
    decreases m - d,
{
    if m == d {
        lemma2_to64();
    } else {
        lemma_stream_bits_split(bytes, start, d, (m - 1) as nat);
        lemma_pow2_unfold((m - d) as nat);
        let a = stream_bits(bytes, start, d) as int;
        let p = pow2((m - 1 - d) as nat) as int;
        let r = stream_bits(bytes, (start + d) as nat, (m - 1 - d) as nat) as int;
        let b = stream_bit(bytes, (start + m - 1) as nat) as int;
        assert(stream_bits(bytes, start, m) == (2 * stream_bits(bytes, start, (m - 1) as nat)
            + stream_bit(bytes, (start + m - 1) as nat)) as nat);
        assert((start + d) + (m - d) - 1 == start + m - 1);
        assert(stream_bits(bytes, (start + d) as nat, (m - d) as nat) == (2 * stream_bits(
            bytes,
            (start + d) as nat,
            (m - d - 1) as nat,
        ) + stream_bit(bytes, (start + m - 1) as nat)) as nat);
        assert(2 * (a * p + r) + b == a * (2 * p) + (2 * r + b)) by (nonlinear_arith);
        assert(stream_bits(bytes, start, (m - 1) as nat) == a * p + r);
        assert(pow2((m - d) as nat) == 2 * p);
    }
}

/// Canonical Huffman table over a dense alphabet `0..symbol_depth.len()`.
/// `symbol_depth[s]` is the code length of symbol `s` (0: not coded);
/// `symbol_code[s]` its canonical code.
#[derive(Debug)]
pub struct Huffman {
    symbol_depth: Vec<u8>,
    symbol_code: Vec<u32>,
    max_depth: usize,
}

impl Huffman {
    /// The per-symbol code depths, the table's defining data.
    pub closed spec fn depths(self) -> Seq<u8> {
        self.symbol_depth@
    }

    /// The per-symbol canonical codes.
    pub closed spec fn codes(self) -> Seq<u32> {
        self.symbol_code@
    }

    /// The deepest code in use.
    pub closed spec fn max(self) -> nat {
        self.max_depth as nat
    }

    pub open spec fn wf(self) -> bool {
        &&& self.codes().len() == self.depths().len()
        &&& self.depths().len() < 16384
        &&& forall|s: int| 0 <= s < self.depths().len() ==> self.depths()[s] <= 16
        &&& self.max() == spec_max_depth(self.depths())
        &&& kraft_ok(self.depths())
        &&& forall|s: int|
            0 <= s < self.depths().len() && self.depths()[s] != 0 ==> self.codes()[s]
                == spec_code(self.depths(), s)
    }

    /// Build the canonical table from per-symbol code depths, validating
    /// the Kraft equality.
    pub fn new(symbol_depth: Vec<u8>) -> (r: Result<Huffman, Error>)
        requires
            symbol_depth@.len() < 16384,
            forall|s: int| 0 <= s < symbol_depth@.len() ==> symbol_depth@[s] <= 16,
        ensures
            match r {
                Ok(h) => h.wf() && h.depths() == symbol_depth@,
                Err(e) => e == Error::IncompleteHuffmanTree && !kraft_ok(symbol_depth@),
            },
            r is Ok <==> kraft_ok(symbol_depth@),
    {
        let ghost depths = symbol_depth@;
        let n = symbol_depth.len();

        let mut depth_count: Vec<u32> = vec![0u32; 17];
        let mut s: usize = 0;
        while s < n
            invariant
                symbol_depth@ == depths,
                n == depths.len(),
                n < 16384,
                s <= n,
                forall|t: int| 0 <= t < n ==> depths[t] <= 16,
                depth_count@.len() == 17,
                forall|d: int|
                    0 <= d < 17 ==> depth_count@[d] == count_upto(depths, d as nat, s as nat),
            decreases n - s,
        {
            let d = symbol_depth[s] as usize;
            proof {
                lemma_count_upto_le(depths, d as nat, s as nat);
            }
            depth_count[d] = depth_count[d] + 1;
            s = s + 1;
        }

        let mut depth_bound_v: Vec<u32> = vec![0u32; 17];
        let mut max_depth: usize = 0;
        let mut available: u32 = 0;
        let mut d: usize = 0;
        while d < 17
            invariant
                symbol_depth@ == depths,
                n == depths.len(),
                n < 16384,
                d <= 17,
                forall|t: int| 0 <= t < n ==> depths[t] <= 16,
                depth_count@.len() == 17,
                forall|i: int| 0 <= i < 17 ==> depth_count@[i] == count_depth(depths, i as nat),
                depth_bound_v@.len() == 17,
                forall|i: int| 0 <= i < d ==> depth_bound_v@[i] == depth_bound(depths, i as nat),
                available == (if d == 0 {
                    0nat
                } else {
                    depth_bound(depths, (d - 1) as nat)
                }),
                max_depth == (if d == 0 {
                    0nat
                } else {
                    max_depth_upto(depths, (d - 1) as nat)
                }),
                max_depth < 17,
            decreases 17 - d,
        {
            proof {
                if d > 0 {
                    lemma_bound_fits(depths, d as nat);
                    lemma_count_upto_le(depths, d as nat, depths.len());
                }
            }
            available = available * 2;
            if d != 0 {
                available = available + depth_count[d];
                if depth_count[d] != 0 {
                    max_depth = d;
                }
            }
            depth_bound_v[d] = available;
            d = d + 1;
        }
        proof {
            assert(max_depth == spec_max_depth(depths));
        }

        let limit: u32 = 1u32 << (max_depth as u32);
        proof {
            lemma2_to64();
            if max_depth < 16 {
                lemma_pow2_strictly_increases(max_depth as nat, 16);
            }
            vstd::bits::lemma_u32_shl_is_mul(1u32, max_depth as u32);
        }
        let bm = depth_bound_v[max_depth];
        if !(bm == limit || (max_depth <= 1 && bm == max_depth as u32)) {
            return Err(Error::IncompleteHuffmanTree);
        }

        let mut depth_current: Vec<u32> = vec![0u32; 17];
        let mut i: usize = 1;
        while i < 17
            invariant
                symbol_depth@ == depths,
                n == depths.len(),
                n < 16384,
                1 <= i <= 17,
                depth_bound_v@.len() == 17,
                forall|j: int| 0 <= j < 17 ==> depth_bound_v@[j] == depth_bound(depths, j as nat),
                depth_current@.len() == 17,
                forall|j: int|
                    1 <= j < i ==> depth_current@[j] == 2 * depth_bound(depths, (j - 1) as nat),
            decreases 17 - i,
        {
            proof {
                lemma_bound_fits(depths, (i - 1) as nat);
            }
            depth_current[i] = depth_bound_v[i - 1] * 2;
            i = i + 1;
        }

        let mut symbol_code: Vec<u32> = vec![0u32; n];
        let mut s: usize = 0;
        while s < n
            invariant
                symbol_depth@ == depths,
                n == depths.len(),
                n < 16384,
                s <= n,
                forall|t: int| 0 <= t < n ==> depths[t] <= 16,
                depth_current@.len() == 17,
                forall|j: int|
                    1 <= j < 17 ==> depth_current@[j] == 2 * depth_bound(depths, (j - 1) as nat)
                        + count_upto(depths, j as nat, s as nat),
                symbol_code@.len() == n,
                forall|t: int|
                    0 <= t < s && depths[t] != 0 ==> symbol_code@[t] == spec_code(depths, t),
            decreases n - s,
        {
            let dd = symbol_depth[s] as usize;
            if dd != 0 {
                proof {
                    lemma_bound_fits(depths, dd as nat);
                    lemma_count_upto_mono(depths, dd as nat, (s + 1) as nat, depths.len());
                }
                symbol_code[s] = depth_current[dd];
                depth_current[dd] = depth_current[dd] + 1;
            }
            s = s + 1;
        }

        Ok(Huffman { symbol_depth, symbol_code, max_depth })
    }

}

/// Some coded symbol of depth `d` matches the next `d` lookahead bits.
pub open spec fn depth_matches(depths: Seq<u8>, bytes: Seq<u8>, idx: nat, d: nat) -> bool {
    exists|s: int|
        0 <= s < depths.len() && depths[s] == d && spec_code(depths, s) == stream_bits(
            bytes,
            idx,
            d,
        )
}

/// The least depth in `j..=max` whose codes match the lookahead.
pub open spec fn least_match_from(depths: Seq<u8>, bytes: Seq<u8>, idx: nat, j: nat) -> Option<nat>
    decreases spec_max_depth(depths) + 1 - j,
{
    if j > spec_max_depth(depths) {
        None
    } else if depth_matches(depths, bytes, idx, j) {
        Some(j)
    } else {
        least_match_from(depths, bytes, idx, (j + 1) as nat)
    }
}

/// The depth of the code that a decode at `idx` would consume.
pub open spec fn spec_least_match(depths: Seq<u8>, bytes: Seq<u8>, idx: nat) -> Option<nat> {
    least_match_from(depths, bytes, idx, 1)
}

/// A single-symbol table: exactly one coded symbol, at depth 1. Such a
/// table decodes its symbol from either bit value, consuming one bit.
pub open spec fn spec_is_singleton(depths: Seq<u8>) -> bool {
    spec_max_depth(depths) == 1 && count_depth(depths, 1) == 1
}

/// What one decode step against the table with the given code depths
/// yields: the symbol and the new bit index, or `None` when it fails.
/// A singleton table always yields its one symbol and consumes one bit;
/// any other table consumes the least-depth matching code.
pub open spec fn spec_decode(depths: Seq<u8>, bytes: Seq<u8>, idx: nat) -> Option<(u32, nat)> {
    if idx >= 8 * bytes.len() {
        None
    } else if spec_is_singleton(depths) {
        let s = choose|s: int| 0 <= s < depths.len() && depths[s] == 1;
        Some((s as u32, (idx + 1) as nat))
    } else {
        match spec_least_match(depths, bytes, idx) {
            Option::None => None,
            Option::Some(d) => if idx + d > 8 * bytes.len() {
                None
            } else {
                let s = choose|s: int|
                    0 <= s < depths.len() && depths[s] == d && spec_code(depths, s)
                        == stream_bits(bytes, idx, d);
                Some((s as u32, (idx + d) as nat))
            },
        }
    }
}

/// A table whose single depth-1 count is one holds exactly one depth-1
/// symbol.
pub proof fn lemma_depth_one_unique(depths: Seq<u8>, a: int, bb: int)
    requires
        count_depth(depths, 1) == 1,
        0 <= a < depths.len(),
        0 <= bb < depths.len(),
        depths[a] == 1,
        depths[bb] == 1,
    ensures
        a == bb,
{
    if a < bb {
        assert(count_upto(depths, 1, (a + 1) as nat) == count_upto(depths, 1, a as nat) + 1);
        assert(count_upto(depths, 1, (bb + 1) as nat) == count_upto(depths, 1, bb as nat) + 1);
        lemma_count_upto_mono(depths, 1, (a + 1) as nat, bb as nat);
        lemma_count_upto_mono(depths, 1, (bb + 1) as nat, depths.len());
    } else if bb < a {
        assert(count_upto(depths, 1, (bb + 1) as nat) == count_upto(depths, 1, bb as nat) + 1);
        assert(count_upto(depths, 1, (a + 1) as nat) == count_upto(depths, 1, a as nat) + 1);
        lemma_count_upto_mono(depths, 1, (bb + 1) as nat, a as nat);
        lemma_count_upto_mono(depths, 1, (a + 1) as nat, depths.len());
    }
}

proof fn lemma_least_match_is(depths: Seq<u8>, bytes: Seq<u8>, idx: nat, j: nat, d: nat)
    requires
        1 <= j <= d <= spec_max_depth(depths),
        depth_matches(depths, bytes, idx, d),
        forall|d2: nat| j <= d2 < d ==> !depth_matches(depths, bytes, idx, d2),
    ensures
        least_match_from(depths, bytes, idx, j) == Some(d),
    decreases d - j,
{
    if j < d {
        lemma_least_match_is(depths, bytes, idx, (j + 1) as nat, d);
    }
}

proof fn lemma_least_match_none(depths: Seq<u8>, bytes: Seq<u8>, idx: nat, j: nat)
    requires
        1 <= j,
        forall|d2: nat|
            j <= d2 <= spec_max_depth(depths) ==> !depth_matches(depths, bytes, idx, d2),
    ensures
        least_match_from(depths, bytes, idx, j) is None,
    decreases spec_max_depth(depths) + 1 - j,
{
    if j <= spec_max_depth(depths) {
        lemma_least_match_none(depths, bytes, idx, (j + 1) as nat);
    }
}

impl Huffman {
    /// The table's one symbol, when it is a singleton. A singleton table
    /// decodes that symbol from either bit value.
    fn singleton_symbol(&self) -> (r: Option<u32>)
        requires
            self.wf(),
        ensures
            match r {
                Some(s) => {
                    &&& spec_is_singleton(self.depths())
                    &&& 0 <= s < self.depths().len()
                    &&& self.depths()[s as int] == 1
                },
                None => !spec_is_singleton(self.depths()),
            },
    {
        if self.max_depth != 1 {
            return None;
        }
        let ghost depths = self.depths();
        let n = self.symbol_depth.len();
        let mut cnt: usize = 0;
        let mut found: usize = 0;
        let mut s: usize = 0;
        while s < n
            invariant
                self.wf(),
                depths == self.depths(),
                n == depths.len(),
                s <= n,
                cnt == count_upto(depths, 1, s as nat),
                cnt <= s,
                cnt > 0 ==> found < s && depths[found as int] == 1,
            decreases n - s,
        {
            proof {
                lemma_count_upto_le(depths, 1, s as nat);
            }
            if self.symbol_depth[s] == 1 {
                if cnt == 0 {
                    found = s;
                }
                cnt = cnt + 1;
            }
            s = s + 1;
        }
        if cnt == 1 {
            Some(found as u32)
        } else {
            None
        }
    }

    /// Decode one symbol: a singleton table yields its one symbol on any
    /// bit; otherwise match the lookahead against each depth from the
    /// shallowest and consume the matched code's bits.
    pub fn next(&self, codec: &mut Codec) -> (r: Result<u32, Error>)
        requires
            self.wf(),
            old(codec).wf(),
        ensures
            final(codec).wf(),
            final(codec).bytes() == old(codec).bytes(),
            match r {
                Ok(sym) => {
                    &&& 0 <= sym < self.depths().len()
                    &&& 1 <= self.depths()[sym as int] <= self.max()
                    &&& (!spec_is_singleton(self.depths()) ==> spec_code(self.depths(), sym as int)
                        == stream_bits(
                        old(codec).bytes(),
                        old(codec).bit_index(),
                        self.depths()[sym as int] as nat,
                    ))
                    &&& final(codec).bit_index() == old(codec).bit_index()
                        + self.depths()[sym as int]
                    &&& spec_decode(self.depths(), old(codec).bytes(), old(codec).bit_index())
                        == Some((sym, final(codec).bit_index()))
                },
                Err(e) => {
                    &&& final(codec).bit_index() == old(codec).bit_index()
                    &&& spec_decode(self.depths(), old(codec).bytes(), old(codec).bit_index())
                        is None
                    &&& ((e == Error::ReadPastEnd && (old(codec).bit_index() >= old(
                        codec,
                    ).bit_len() || (spec_least_match(
                        self.depths(),
                        old(codec).bytes(),
                        old(codec).bit_index(),
                    ) matches Some(d) && old(codec).bit_index() + d > old(codec).bit_len())))
                        || (e == Error::HuffmanNoMatch && old(codec).bit_index() < old(
                        codec,
                    ).bit_len() && spec_least_match(
                        self.depths(),
                        old(codec).bytes(),
                        old(codec).bit_index(),
                    ) is None))
                },
            },
    {
        let ghost b = old(codec).bytes();
        let ghost i0 = old(codec).bit_index();
        let cur = codec.current();
        let len_bits = codec.len();
        if cur >= len_bits {
            return Err(Error::ReadPastEnd);
        }
        match self.singleton_symbol() {
            Some(s) => {
                codec.skip_bits(1);
                proof {
                    let sc = choose|u: int| 0 <= u < self.depths().len() && self.depths()[u] == 1;
                    lemma_depth_one_unique(self.depths(), sc, s as int);
                }
                return Ok(s);
            },
            None => {},
        }
        proof {
            lemma_max_depth_le(self.depths(), MAX_DEPTH as nat);
        }
        let k = codec.look_bits(self.max_depth);
        let n = self.symbol_depth.len();
        let mut d: usize = 1;
        while d <= self.max_depth
            invariant
                self.wf(),
                codec.wf(),
                b == old(codec).bytes(),
                i0 == old(codec).bit_index(),
                codec.bytes() == b,
                codec.bit_index() == i0,
                cur == i0,
                len_bits == codec.bit_len(),
                i0 < codec.bit_len(),
                n == self.depths().len(),
                !spec_is_singleton(self.depths()),
                k == stream_bits(b, i0, self.max()),
                self.max() <= 16,
                1 <= d <= self.max() + 1,
                forall|d2: nat| 1 <= d2 < d ==> !depth_matches(self.depths(), b, i0, d2),
            decreases self.max_depth + 1 - d,
        {
            let sh = self.max_depth - d;
            let t64 = k >> (sh as u64);
            proof {
                lemma_stream_bits_split(b, i0, d as nat, self.max());
                lemma_stream_bits_bound(b, (i0 + d) as nat, sh as nat);
                lemma_stream_bits_bound(b, i0, d as nat);
                lemma_pow2_pos(sh as nat);
                vstd::bits::lemma_u64_shr_is_div(k, sh as u64);
                vstd::arithmetic::div_mod::lemma_fundamental_div_mod_converse(
                    k as int,
                    pow2(sh as nat) as int,
                    stream_bits(b, i0, d as nat) as int,
                    stream_bits(b, (i0 + d) as nat, sh as nat) as int,
                );
                lemma2_to64();
                if (d as nat) < 16 {
                    lemma_pow2_strictly_increases(d as nat, 16);
                }
                assert(t64 == stream_bits(b, i0, d as nat));
            }
            let t = t64 as u32;
            let mut s: usize = 0;
            while s < n
                invariant
                    self.wf(),
                    codec.wf(),
                    b == old(codec).bytes(),
                    i0 == old(codec).bit_index(),
                    codec.bytes() == b,
                    codec.bit_index() == i0,
                    cur == i0,
                    len_bits == codec.bit_len(),
                    i0 < codec.bit_len(),
                    n == self.depths().len(),
                    !spec_is_singleton(self.depths()),
                    self.max() <= 16,
                    1 <= d <= self.max(),
                    t == stream_bits(b, i0, d as nat),
                    forall|d2: nat| 1 <= d2 < d ==> !depth_matches(self.depths(), b, i0, d2),
                    forall|u: int|
                        0 <= u < s ==> !(self.depths()[u] == d && self.codes()[u] == t),
                decreases n - s,
            {
                if self.symbol_depth[s] as usize == d && self.symbol_code[s] == t {
                    let remaining = len_bits - cur;
                    proof {
                        assert(self.codes()[s as int] == spec_code(self.depths(), s as int));
                        assert(depth_matches(self.depths(), b, i0, d as nat));
                        lemma_least_match_is(self.depths(), b, i0, 1, d as nat);
                    }
                    if d > remaining {
                        return Err(Error::ReadPastEnd);
                    }
                    codec.skip_bits(d);
                    proof {
                        let dd = d as nat;
                        let sc = choose|u: int|
                            0 <= u < self.depths().len() && self.depths()[u] == dd && spec_code(
                                self.depths(),
                                u,
                            ) == stream_bits(b, i0, dd);
                        if sc != s as int {
                            lemma_code_injective(self.depths(), sc, s as int);
                        }
                    }
                    return Ok(s as u32);
                }
                s = s + 1;
            }
            proof {
                let dd = d as nat;
                assert forall|u: int|
                    0 <= u < self.depths().len() implies !(self.depths()[u] == dd && spec_code(
                    self.depths(),
                    u,
                ) == stream_bits(b, i0, dd)) by {
                    if self.depths()[u] == dd {
                        assert(self.codes()[u] == spec_code(self.depths(), u));
                    }
                }
                assert(!depth_matches(self.depths(), b, i0, dd));
            }
            d = d + 1;
        }
        proof {
            lemma_least_match_none(self.depths(), b, i0, 1);
        }
        Err(Error::HuffmanNoMatch)
    }
}

/// The meta-alphabet that transmits code lengths: literal depths plus four
/// run-length symbols.
#[derive(Debug, Clone, Copy, PartialEq, Eq, Structural)]
pub enum Key {
    Depth(usize),
    ShortZero,
    LongZero,
    ShortRepeat,
    LongRepeat,
}

impl Key {
    /// The alphabet index a meta-symbol decodes to: `Depth(d)` is `d`, the
    /// run-length symbols follow at 17 through 20.
    pub open spec fn spec_rank(self) -> int {
        match self {
            Key::Depth(d) => d as int,
            Key::ShortZero => 17,
            Key::LongZero => 18,
            Key::ShortRepeat => 19,
            Key::LongRepeat => 20,
        }
    }

    /// The fixed order in which the table stream transmits the depths of
    /// the 21 meta-symbols.
    pub open spec fn spec_shuffle(i: int) -> Key {
        if i == 0 {
            Key::ShortZero
        } else if i == 1 {
            Key::LongZero
        } else if i == 2 {
            Key::ShortRepeat
        } else if i == 3 {
            Key::LongRepeat
        } else if i == 4 {
            Key::Depth(0)
        } else if i == 5 {
            Key::Depth(8)
        } else if i == 6 {
            Key::Depth(7)
        } else if i == 7 {
            Key::Depth(9)
        } else if i == 8 {
            Key::Depth(6)
        } else if i == 9 {
            Key::Depth(10)
        } else if i == 10 {
            Key::Depth(5)
        } else if i == 11 {
            Key::Depth(11)
        } else if i == 12 {
            Key::Depth(4)
        } else if i == 13 {
            Key::Depth(12)
        } else if i == 14 {
            Key::Depth(3)
        } else if i == 15 {
            Key::Depth(13)
        } else if i == 16 {
            Key::Depth(2)
        } else if i == 17 {
            Key::Depth(14)
        } else if i == 18 {
            Key::Depth(1)
        } else if i == 19 {
            Key::Depth(15)
        } else {
            Key::Depth(16)
        }
    }

    /// The meta-symbol at shuffle position `i`.
    pub fn shuffle(i: usize) -> (k: Key)
        requires
            i < 21,
        ensures
            k == Key::spec_shuffle(i as int),
    {
        match i {
            0 => Key::ShortZero,
            1 => Key::LongZero,
            2 => Key::ShortRepeat,
            3 => Key::LongRepeat,
            4 => Key::Depth(0),
            5 => Key::Depth(8),
            6 => Key::Depth(7),
            7 => Key::Depth(9),
            8 => Key::Depth(6),
            9 => Key::Depth(10),
            10 => Key::Depth(5),
            11 => Key::Depth(11),
            12 => Key::Depth(4),
            13 => Key::Depth(12),
            14 => Key::Depth(3),
            15 => Key::Depth(13),
            16 => Key::Depth(2),
            17 => Key::Depth(14),
            18 => Key::Depth(1),
            19 => Key::Depth(15),
            _ => Key::Depth(16),
        }
    }

    /// The alphabet index of this meta-symbol.
    pub fn rank(self) -> (r: usize)
        requires
            self matches Key::Depth(d) ==> d <= 16,
        ensures
            r == self.spec_rank(),
            r < 21,
    {
        match self {
            Key::Depth(d) => d,
            Key::ShortZero => 17,
            Key::LongZero => 18,
            Key::ShortRepeat => 19,
            Key::LongRepeat => 20,
        }
    }
}

/// The alphabet index at shuffle position `i`.
pub open spec fn spec_shuffle_rank(i: int) -> int {
    Key::spec_shuffle(i).spec_rank()
}

/// The depths of the 21 meta-symbols as the table stream transmits them:
/// `tmp` 3-bit fields starting at `idx`, field `i` giving the depth of the
/// meta-symbol at shuffle position `i` (zero fields leave it absent).
pub open spec fn spec_key_depths(bytes: Seq<u8>, idx: nat, i: nat, tmp: nat, acc: Seq<u8>) -> Seq<
    u8,
>
    decreases tmp - i,
{
    if i >= tmp {
        acc
    } else {
        let v = stream_bits(bytes, (idx + 3 * i) as nat, 3);
        let acc2 = if v != 0 {
            acc.update(spec_shuffle_rank(i as int), v as u8)
        } else {
            acc
        };
        spec_key_depths(bytes, idx, (i + 1) as nat, tmp, acc2)
    }
}

/// The run-length decode of per-symbol code lengths: extend `acc` to
/// `count` entries by decoding meta-symbols with the key table, or `None`
/// when any step fails (decode failure, a read past the end, a repeat
/// before any depth, or a run stepping past `count`).
pub open spec fn spec_code_lengths(
    key_depths: Seq<u8>,
    bytes: Seq<u8>,
    idx: nat,
    count: nat,
    acc: Seq<u8>,
    last: Option<u8>,
) -> Option<(Seq<u8>, nat)>
    decreases count - acc.len(),
{
    if acc.len() >= count {
        Some((acc, idx))
    } else {
        match spec_decode(key_depths, bytes, idx) {
            Option::None => None,
            Option::Some((sym, idx1)) => {
                if sym <= 16 {
                    spec_code_lengths(
                        key_depths,
                        bytes,
                        idx1,
                        count,
                        acc.push(sym as u8),
                        Some(sym as u8),
                    )
                } else if sym > 20 {
                    None
                } else {
                    let w: nat = if sym == 17 {
                        3
                    } else if sym == 18 {
                        7
                    } else if sym == 19 {
                        2
                    } else {
                        6
                    };
                    if idx1 + w > 8 * bytes.len() {
                        None
                    } else {
                        let v = stream_bits(bytes, idx1, w);
                        let runlen: nat = if sym == 17 {
                            (v + 3) as nat
                        } else if sym == 18 {
                            (v + 11) as nat
                        } else if sym == 19 {
                            (v + 3) as nat
                        } else {
                            (v + 7) as nat
                        };
                        let dopt: Option<u8> = if sym == 17 || sym == 18 {
                            Some(0u8)
                        } else {
                            last
                        };
                        match dopt {
                            Option::None => None,
                            Option::Some(dv) => {
                                if acc.len() + runlen > count {
                                    None
                                } else {
                                    spec_code_lengths(
                                        key_depths,
                                        bytes,
                                        (idx1 + w) as nat,
                                        count,
                                        acc + Seq::new(runlen, |_j: int| dv),
                                        Some(dv),
                                    )
                                }
                            },
                        }
                    }
                }
            },
        }
    }
}

/// A short repeat in the code-length stream: decoded while entries are
/// still owed and right after depths were emitted (the last being `d`),
/// with extra bits `v`, it appends exactly `v + 3` further entries of
/// `d` and the decode continues behind the two extra bits.
pub proof fn lemma_short_repeat_run(
    key: Seq<u8>,
    bytes: Seq<u8>,
    idx: nat,
    count: nat,
    acc: Seq<u8>,
    d: u8,
)
    requires
        acc.len() < count,
        spec_decode(key, bytes, idx) matches Some((sym, i1)) && sym == 19 && i1 + 2 <= 8
            * bytes.len() && acc.len() + stream_bits(bytes, i1, 2) + 3 <= count,
    ensures
        ({
            let i1 = spec_decode(key, bytes, idx)->Some_0.1;
            let v = stream_bits(bytes, i1, 2);
            spec_code_lengths(key, bytes, idx, count, acc, Some(d)) == spec_code_lengths(
                key,
                bytes,
                (i1 + 2) as nat,
                count,
                acc + Seq::new((v + 3) as nat, |_k: int| d),
                Some(d),
            )
        }),
{
    let i1 = spec_decode(key, bytes, idx)->Some_0.1;
    let v = stream_bits(bytes, i1, 2);
    assert(spec_code_lengths(key, bytes, idx, count, acc, Some(d)) == spec_code_lengths(
        key,
        bytes,
        (i1 + 2) as nat,
        count,
        acc + Seq::new((v + 3) as nat, |_k: int| d),
        Some(d),
    ));
}

/// The decode of one whole Huffman table from the stream: the per-symbol
/// code lengths of the table and the bit index after it, or `None` when
/// the stream is invalid at any step.
pub open spec fn spec_get_huffman(bytes: Seq<u8>, idx: nat) -> Option<(Seq<u8>, nat)> {
    if idx + 14 > 8 * bytes.len() {
        None
    } else {
        let count = stream_bits(bytes, idx, 14);
        let idx1 = (idx + 14) as nat;
        if count == 0 {
            Some((Seq::empty(), idx1))
        } else if idx1 + 5 > 8 * bytes.len() {
            None
        } else {
            let tmp = stream_bits(bytes, idx1, 5);
            let idx2 = (idx1 + 5) as nat;
            if tmp >= 21 {
                None
            } else if idx2 + 3 * tmp > 8 * bytes.len() {
                None
            } else {
                let kd = spec_key_depths(bytes, idx2, 0, tmp as nat, Seq::new(21, |_i: int| 0u8));
                if !kraft_ok(kd) {
                    None
                } else {
                    match spec_code_lengths(
                        kd,
                        bytes,
                        (idx2 + 3 * tmp) as nat,
                        count as nat,
                        Seq::empty(),
                        Option::None,
                    ) {
                        Option::None => None,
                        Option::Some((depths, idx3)) => if kraft_ok(depths) {
                            Some((depths, idx3))
                        } else {
                            None
                        },
                    }
                }
            }
        }
    }
}

/// The prelude of a table decode: the symbol count, the key-table
/// depths, and the bit index of the code-length stream — when the counts
/// are readable and sane and the key table is complete.
pub open spec fn spec_table_prelude(bytes: Seq<u8>, idx: nat) -> Option<(nat, Seq<u8>, nat)> {
    if idx + 19 > 8 * bytes.len() {
        None
    } else {
        let cnt = stream_bits(bytes, idx, 14);
        let tmp = stream_bits(bytes, (idx + 14) as nat, 5);
        if cnt == 0 || tmp >= 21 || idx + 19 + 3 * tmp > 8 * bytes.len() {
            None
        } else {
            let kd = spec_key_depths(bytes, (idx + 19) as nat, 0, tmp as nat, Seq::new(21, |_i: int| 0u8));
            if kraft_ok(kd) {
                Some((cnt as nat, kd, (idx + 19 + 3 * tmp) as nat))
            } else {
                None
            }
        }
    }
}

/// The code-length stream opens with a repeat although no depth has been
/// emitted yet: its very first symbol is ShortRepeat or LongRepeat, with
/// its extra bits readable.
pub open spec fn spec_first_step_repeat(bytes: Seq<u8>, idx: nat) -> bool {
    spec_table_prelude(bytes, idx) matches Some((cnt, kd, idx3)) && (spec_decode(
        kd,
        bytes,
        idx3,
    ) matches Some((sym, i4)) && sym >= 19 && (sym == 19 ==> i4 + 2 <= 8 * bytes.len()) && (sym
        == 20 ==> i4 + 6 <= 8 * bytes.len()))
}

/// The code-length stream opens with a zero run that already steps past
/// the symbol count.
pub open spec fn spec_first_step_overrun(bytes: Seq<u8>, idx: nat) -> bool {
    spec_table_prelude(bytes, idx) matches Some((cnt, kd, idx3)) && (spec_decode(
        kd,
        bytes,
        idx3,
    ) matches Some((sym, i4)) && ((sym == 17 && i4 + 3 <= 8 * bytes.len() && stream_bits(
        bytes,
        i4,
        3,
    ) + 3 > cnt) || (sym == 18 && i4 + 7 <= 8 * bytes.len() && stream_bits(bytes, i4, 7) + 11
        > cnt)))
}

proof fn lemma_kraft_empty()
    ensures
        kraft_ok(Seq::<u8>::empty()),
        spec_max_depth(Seq::<u8>::empty()) == 0,
{
    let e = Seq::<u8>::empty();
    lemma_max_depth_empty(e, 16);
    assert(depth_bound(e, 0) == 0);
}

proof fn lemma_max_depth_empty(depths: Seq<u8>, d: nat)
    requires
        depths.len() == 0,
    ensures
        max_depth_upto(depths, d) == 0,
    decreases d,
{
    if d > 0 {
        lemma_max_depth_empty(depths, (d - 1) as nat);
    }
}

impl<'a> Codec<'a> {
    /// Read one canonical Huffman table from the stream: symbol count, the
    /// shuffled key-table depths, then run-length coded per-symbol depths.
    #[verifier::rlimit(60)]
    pub fn get_huffman(&mut self) -> (r: Result<Huffman, Error>)
        requires
            old(self).wf(),
        ensures
            final(self).wf(),
            final(self).bytes() == old(self).bytes(),
            match r {
                Ok(h) => {
                    &&& h.wf()
                    &&& spec_get_huffman(old(self).bytes(), old(self).bit_index()) == Some(
                        (h.depths(), final(self).bit_index()),
                    )
                },
                Err(e) => {
                    &&& spec_get_huffman(old(self).bytes(), old(self).bit_index()) is None
                    &&& ((old(self).bit_index() + 19 <= old(self).bit_len() && stream_bits(
                        old(self).bytes(),
                        old(self).bit_index(),
                        14,
                    ) != 0 && stream_bits(
                        old(self).bytes(),
                        (old(self).bit_index() + 14) as nat,
                        5,
                    ) >= 21) ==> e == Error::MetaCountExceedsShuffle)
                    &&& (spec_first_step_repeat(old(self).bytes(), old(self).bit_index()) ==> e
                        == Error::RunLengthBeforeAnyDepth)
                    &&& (spec_first_step_overrun(old(self).bytes(), old(self).bit_index()) ==> e
                        == Error::RunLengthPastSymbolCount)
                },
            },
    {
        let ghost b = old(self).bytes();
        let ghost i0 = old(self).bit_index();
        let symbol_count64 = match self.read_bits(MAX_SYMBOL_COUNT_BIT) {
            Ok(v) => v,
            Err(e) => { return Err(e) },
        };
        proof {
            lemma_stream_bits_bound(b, i0, 14);
            lemma2_to64();
        }
        let symbol_count = symbol_count64 as usize;
        if symbol_count == 0 {
            match Huffman::new(Vec::new()) {
                Ok(h) => {
                    proof {
                        assert(h.depths() =~= Seq::<u8>::empty());
                    }
                    return Ok(h);
                },
                Err(e) => {
                    proof {
                        lemma_kraft_empty();
                        assert(false);
                    }
                    return Err(e);
                },
            }
        }
        let ghost idx1 = i0 + 14;
        let tmp_count64 = match self.read_bits(5) {
            Ok(v) => v,
            Err(e) => { return Err(e) },
        };
        proof {
            lemma_stream_bits_bound(b, idx1 as nat, 5);
            lemma2_to64();
        }
        let tmp_count = tmp_count64 as usize;
        if tmp_count >= 21 {
            return Err(Error::MetaCountExceedsShuffle);
        }
        let ghost idx2 = idx1 + 5;
        let ghost zeros = Seq::new(21, |_i: int| 0u8);

        let mut key_depths_v: Vec<u8> = vec![0u8; 21];
        proof {
            assert(key_depths_v@ =~= zeros);
        }
        let mut i: usize = 0;
        while i < tmp_count
            invariant
                self.wf(),
                b == old(self).bytes(),
                i0 == old(self).bit_index(),
                self.bytes() == b,
                idx1 == i0 + 14,
                idx2 == idx1 + 5,
                i0 + 14 <= 8 * b.len(),
                idx1 + 5 <= 8 * b.len(),
                0 < symbol_count < 16384,
                symbol_count == stream_bits(b, i0, 14),
                tmp_count == stream_bits(b, idx1 as nat, 5),
                i <= tmp_count,
                tmp_count < 21,
                self.bit_index() == idx2 + 3 * i,
                zeros == Seq::new(21, |_i: int| 0u8),
                key_depths_v@.len() == 21,
                forall|t: int| 0 <= t < 21 ==> key_depths_v@[t] <= 7,
                spec_key_depths(b, idx2 as nat, i as nat, tmp_count as nat, key_depths_v@)
                    == spec_key_depths(b, idx2 as nat, 0, tmp_count as nat, zeros),
            decreases tmp_count - i,
        {
            let v = match self.read_bits(3) {
                Ok(v) => v,
                Err(e) => {
                    proof {
                        assert(idx2 + 3 * tmp_count > 8 * b.len());
                    }
                    return Err(e);
                },
            };
            proof {
                lemma_stream_bits_bound(b, (idx2 + 3 * i) as nat, 3);
                lemma2_to64();
            }
            if v != 0 {
                let rank = Key::shuffle(i).rank();
                key_depths_v[rank] = v as u8;
            }
            i = i + 1;
        }
        let ghost kd = key_depths_v@;
        let ghost idx3 = idx2 + 3 * tmp_count;

        let key = match Huffman::new(key_depths_v) {
            Ok(k) => k,
            Err(e) => { return Err(e) },
        };

        let mut depths_vec: Vec<u8> = Vec::new();
        let mut last_depth: Option<u8> = Option::None;
        while depths_vec.len() < symbol_count
            invariant
                self.wf(),
                b == old(self).bytes(),
                i0 == old(self).bit_index(),
                self.bytes() == b,
                idx1 == i0 + 14,
                idx2 == idx1 + 5,
                idx3 == idx2 + 3 * tmp_count,
                idx3 <= 8 * b.len(),
                i0 + 14 <= 8 * b.len(),
                idx1 + 5 <= 8 * b.len(),
                tmp_count < 21,
                kd.len() == 21,
                0 < symbol_count < 16384,
                symbol_count == stream_bits(b, i0, 14),
                tmp_count == stream_bits(b, idx1 as nat, 5),
                zeros == Seq::new(21, |_i: int| 0u8),
                kd == spec_key_depths(b, idx2 as nat, 0, tmp_count as nat, zeros),
                kraft_ok(kd),
                spec_table_prelude(b, i0) == Some((symbol_count as nat, kd, idx3 as nat)),
                (spec_first_step_repeat(b, i0) || spec_first_step_overrun(b, i0)) ==> (
                depths_vec@.len() == 0 && last_depth is None && self.bit_index() == idx3),
                key.wf(),
                key.depths() == kd,
                depths_vec@.len() <= symbol_count,
                forall|t: int| 0 <= t < depths_vec@.len() ==> depths_vec@[t] <= 16,
                last_depth matches Some(l) ==> l <= 16,
                spec_code_lengths(
                    kd,
                    b,
                    self.bit_index(),
                    symbol_count as nat,
                    depths_vec@,
                    last_depth,
                ) == spec_code_lengths(
                    kd,
                    b,
                    idx3 as nat,
                    symbol_count as nat,
                    Seq::empty(),
                    Option::None,
                ),
            decreases symbol_count - depths_vec.len(),
        {
            let ghost accb = depths_vec@;
            let ghost lastb = last_depth;
            let ghost idxb = self.bit_index();
            let sym = match key.next(self) {
                Ok(s) => s,
                Err(e) => { return Err(e) },
            };
            if sym <= 16 {
                depths_vec.push(sym as u8);
                last_depth = Some(sym as u8);
                proof {
                    assert(spec_code_lengths(kd, b, idxb, symbol_count as nat, accb, lastb)
                        == spec_code_lengths(
                        kd,
                        b,
                        self.bit_index(),
                        symbol_count as nat,
                        depths_vec@,
                        last_depth,
                    ));
                }
            } else {
                let w: usize = if sym == 17 {
                    3
                } else if sym == 18 {
                    7
                } else if sym == 19 {
                    2
                } else {
                    6
                };
                let ghost idx_run = self.bit_index();
                let v = match self.read_bits(w) {
                    Ok(v) => v,
                    Err(e) => { return Err(e) },
                };
                proof {
                    lemma_stream_bits_bound(b, idx_run, w as nat);
                    lemma2_to64();
                }
                let d: u8 = if sym == 17 || sym == 18 {
                    0u8
                } else {
                    match last_depth {
                        Some(l) => l,
                        Option::None => { return Err(Error::RunLengthBeforeAnyDepth) },
                    }
                };
                let base: u64 = if sym == 17 {
                    3
                } else if sym == 18 {
                    11
                } else if sym == 19 {
                    3
                } else {
                    7
                };
                let runlen = (v + base) as usize;
                if runlen > symbol_count - depths_vec.len() {
                    return Err(Error::RunLengthPastSymbolCount);
                }
                let ghost acc0 = depths_vec@;
                let mut j: usize = 0;
                while j < runlen
                    invariant
                        j <= runlen,
                        depths_vec@ == acc0 + Seq::new(j as nat, |_k: int| d),
                    decreases runlen - j,
                {
                    depths_vec.push(d);
                    proof {
                        assert(depths_vec@ =~= acc0 + Seq::new((j + 1) as nat, |_k: int| d));
                    }
                    j = j + 1;
                }
                last_depth = Some(d);
                proof {
                    assert(depths_vec@ =~= accb + Seq::new((v + base) as nat, |_k: int| d));
                    assert(spec_code_lengths(kd, b, idxb, symbol_count as nat, accb, lastb)
                        == spec_code_lengths(
                        kd,
                        b,
                        self.bit_index(),
                        symbol_count as nat,
                        depths_vec@,
                        last_depth,
                    ));
                }
            }
        }
        match Huffman::new(depths_vec) {
            Ok(h) => Ok(h),
            Err(e) => { return Err(e) },
        }
    }
}


proof fn lemma_count_upto_none(depths: Seq<u8>, d: nat, j: nat, s0: int)
    requires
        j <= depths.len(),
        forall|s: int| 0 <= s < depths.len() && s != s0 ==> depths[s] != d,
        s0 >= j || (0 <= s0 < depths.len() && depths[s0] != d),
    ensures
        count_upto(depths, d, j) == 0,
    decreases j,
{
    if j > 0 {
        lemma_count_upto_none(depths, d, (j - 1) as nat, s0);
    }
}

proof fn lemma_max_depth_upto_at_least(depths: Seq<u8>, m: nat, k: nat)
    requires
        1 <= m <= k,
        count_depth(depths, m) > 0,
    ensures
        max_depth_upto(depths, k) >= m,
    decreases k,
{
    if k > m && count_depth(depths, k) == 0 {
        lemma_max_depth_upto_at_least(depths, m, (k - 1) as nat);
    }
}

proof fn lemma_max_depth_upto_at_most(depths: Seq<u8>, m: nat, k: nat)
    requires
        forall|d2: nat| m < d2 <= 16 ==> count_depth(depths, d2) == 0,
        k <= 16,
    ensures
        max_depth_upto(depths, k) <= m,
    decreases k,
{
    if k > 0 {
        if count_depth(depths, k) > 0 {
            assert(k <= m);
        } else {
            lemma_max_depth_upto_at_most(depths, m, (k - 1) as nat);
        }
    }
}

/// An empty table decodes nothing: with no coded symbol, every decode
/// fails.
pub proof fn lemma_empty_huffman_fails(depths: Seq<u8>, bytes: Seq<u8>, idx: nat)
    requires
        forall|s: int| 0 <= s < depths.len() ==> depths[s] == 0,
    ensures
        spec_decode(depths, bytes, idx) is None,
{
    assert forall|d2: nat| 0 < d2 <= 16 implies count_depth(depths, d2) == 0 by {
        lemma_count_upto_none(depths, d2, depths.len(), depths.len() as int);
    }
    lemma_max_depth_upto_at_most(depths, 0, 16);
}

/// A singleton table always decodes its one symbol, consuming exactly
/// one bit of either value; it fails only at stream exhaustion.
pub proof fn lemma_singleton_decode(depths: Seq<u8>, bytes: Seq<u8>, idx: nat, s0: int)
    requires
        depths.len() < 0x100000000,
        0 <= s0 < depths.len(),
        depths[s0] == 1,
        forall|s: int| 0 <= s < depths.len() && s != s0 ==> depths[s] == 0,
        idx < 8 * bytes.len(),
    ensures
        spec_decode(depths, bytes, idx) == Some((s0 as u32, (idx + 1) as nat)),
{
    assert forall|d2: nat| 1 < d2 <= 16 implies count_depth(depths, d2) == 0 by {
        lemma_count_upto_none(depths, d2, depths.len(), s0);
    }
    lemma_max_depth_upto_at_most(depths, 1, 16);
    assert(count_upto(depths, 1, (s0 + 1) as nat) >= 1);
    lemma_count_upto_mono(depths, 1, (s0 + 1) as nat, depths.len());
    lemma_max_depth_upto_at_least(depths, 1, 16);
    assert(spec_max_depth(depths) == 1);
    assert(count_depth(depths, 1) <= 1) by {
        lemma_count_upto_one(depths, s0, depths.len() as int);
    }
    assert(spec_is_singleton(depths));
    let sc = choose|s: int| 0 <= s < depths.len() && depths[s] == 1;
    lemma_depth_one_unique(depths, sc, s0);
}

/// At most one symbol has depth 1 when every symbol but `s0` is absent.
proof fn lemma_count_upto_one(depths: Seq<u8>, s0: int, j: int)
    requires
        0 <= s0 < depths.len(),
        forall|s: int| 0 <= s < depths.len() && s != s0 ==> depths[s] == 0,
        0 <= j <= depths.len(),
    ensures
        count_upto(depths, 1, j as nat) <= 1,
    decreases j,
{
    if j > 0 {
        lemma_count_upto_one(depths, s0, j - 1);
        if j - 1 != s0 {
            assert(depths[j - 1] == 0);
        } else {
            lemma_count_upto_none(depths, 1, (j - 1) as nat, s0);
        }
    }
}

/// The reverse map inverts the forward map: in a well-formed table the
/// pair of depth and canonical code determines the symbol.
pub proof fn lemma_huffman_roundtrip(h: Huffman, s1: int, s2: int)
    requires
        h.wf(),
        0 <= s1 < h.depths().len(),
        0 <= s2 < h.depths().len(),
        h.depths()[s1] != 0,
        h.depths()[s1] == h.depths()[s2],
        h.codes()[s1] == h.codes()[s2],
    ensures
        s1 == s2,
{
    if s1 != s2 {
        lemma_code_injective(h.depths(), s1, s2);
    }
}

} // verus!
