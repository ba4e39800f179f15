use crn_decode::codec::{Codec, Huffman};
use crn_decode::Error;

/// Pack MSB-first bit fields into bytes, zero-padded to a byte boundary.
fn pack_bits(fields: &[(u64, usize)]) -> Vec<u8> {
    let mut bits: Vec<bool> = Vec::new();
    for &(v, w) in fields {
        for k in (0..w).rev() {
            bits.push((v >> k) & 1 == 1);
        }
    }
    while bits.len() % 8 != 0 {
        bits.push(false);
    }
    bits.chunks(8).map(|c| c.iter().fold(0u8, |a, &b| (a << 1) | b as u8)).collect()
}

fn depth_map(pairs: &[(usize, u8)], len: usize) -> Vec<u8> {
    let mut d = vec![0u8; len];
    for &(s, depth) in pairs {
        d[s] = depth;
    }
    d
}

#[test]
fn test_huffman() {
    let input = [0b0100_0000u8];
    let mut codec = Codec::new(&input);
    let huffman = Huffman::new(Vec::new()).expect("zero huffman");
    assert!(huffman.next(&mut codec).is_err());

    // a singleton table yields its symbol on every bit value, one bit per
    // call, and fails only once the stream is exhausted
    let mut codec = Codec::new(&input);
    let huffman = Huffman::new(depth_map(&[(0xff, 1)], 256)).expect("zero huffman");
    assert_eq!(huffman.next(&mut codec).unwrap(), 0xff);
    assert_eq!(codec.current(), 1);
    assert_eq!(huffman.next(&mut codec).unwrap(), 0xff);
    assert_eq!(codec.current(), 2);
    for _ in 2..8 {
        assert_eq!(huffman.next(&mut codec).unwrap(), 0xff);
    }
    assert_eq!(codec.current(), 8);
    assert_eq!(huffman.next(&mut codec), Err(Error::ReadPastEnd));

    let mut codec = Codec::new(&input);
    let huffman = Huffman::new(depth_map(&[(0x01, 1), (0xff, 1)], 256)).expect("zero huffman");
    assert_eq!(huffman.next(&mut codec).unwrap(), 0x01);
    assert_eq!(huffman.next(&mut codec).unwrap(), 0xff);
}

#[test]
fn empty_huffman_always_fails() {
    let input = [0xA5u8, 0x5A];
    let empty = Huffman::new(Vec::new()).expect("empty table");
    let mut codec = Codec::new(&input);
    for _ in 0..3 {
        assert_eq!(empty.next(&mut codec), Err(Error::HuffmanNoMatch));
        assert_eq!(codec.current(), 0);
    }
}

#[test]
fn two_symbol_huffman_decodes_bits() {
    // bits 01000000: code 0 -> 0x01, code 1 -> 0xff
    let input = [0x40u8];
    let huffman = Huffman::new(depth_map(&[(0x01, 1), (0xff, 1)], 256)).unwrap();
    let mut codec = Codec::new(&input);
    assert_eq!(huffman.next(&mut codec).unwrap(), 0x01);
    assert_eq!(huffman.next(&mut codec).unwrap(), 0xff);
    assert_eq!(huffman.next(&mut codec).unwrap(), 0x01);
    assert_eq!(huffman.next(&mut codec).unwrap(), 0x01);
    assert_eq!(codec.current(), 4);
}

#[test]
fn kraft_violation_is_rejected() {
    // depths {A:1, B:3, C:3, D:3, E:3, F:3, G:3}: depth_bound[3] = 10 != 8
    let depths = vec![1u8, 3, 3, 3, 3, 3, 3];
    assert!(matches!(Huffman::new(depths), Err(Error::IncompleteHuffmanTree)));
}

#[test]
fn canonical_codes_assign_in_symbol_order() {
    // depths {A:1, B:3, C:3, D:3, E:3}: A=0b0, B=0b100, C=0b101, D=0b110, E=0b111
    let h = Huffman::new(vec![1u8, 3, 3, 3, 3]).expect("complete tree");
    // decode each code back to its symbol
    for (bits, sym) in [(0b0000u64, 0u32), (0b1000, 1), (0b1010, 2), (0b1100, 3), (0b1110, 4)] {
        let byte = [(bits << 4) as u8];
        let mut codec = Codec::new(&byte);
        assert_eq!(h.next(&mut codec).unwrap(), sym);
    }
}

#[test]
fn table_stream_run_length_expands_repeats() {
    // Key table: Depth(4) (shuffle position 12) and ShortRepeat (position 2)
    // both at depth 1. The code-length stream emits one literal Depth(4),
    // then ShortRepeat runs of 2+3, 3+3 and 1+3 more: sixteen depth-4
    // symbols in all, a complete 4-deep table.
    let mut fields: Vec<(u64, usize)> = vec![(16, 14), (13, 5)];
    for pos in 0..13 {
        fields.push((if pos == 2 || pos == 12 { 1 } else { 0 }, 3));
    }
    // key codes: rank 4 (Depth(4)) -> 0, rank 19 (ShortRepeat) -> 1
    fields.push((0, 1)); // Depth(4)
    fields.push((1, 1)); // ShortRepeat
    fields.push((0b10, 2)); // 2+3 = 5 entries
    fields.push((1, 1)); // ShortRepeat
    fields.push((0b11, 2)); // 3+3 = 6 entries
    fields.push((1, 1)); // ShortRepeat
    fields.push((0b01, 2)); // 1+3 = 4 entries
    let data = pack_bits(&fields);
    let mut codec = Codec::new(&data);
    let h = codec.get_huffman().expect("table decodes");
    // all sixteen symbols at depth 4, canonical codes 0..15 in order
    for sym in [0u32, 5, 15] {
        let byte = [(sym as u8) << 4];
        let mut c2 = Codec::new(&byte);
        assert_eq!(h.next(&mut c2).unwrap(), sym);
    }
}

#[test]
fn table_stream_meta_count_too_large() {
    let data = pack_bits(&[(1, 14), (21, 5)]);
    let mut codec = Codec::new(&data);
    assert_eq!(codec.get_huffman().unwrap_err(), Error::MetaCountExceedsShuffle);
}

#[test]
fn table_stream_repeat_before_depth() {
    // key table holds only ShortRepeat (position 2); the first code-length
    // symbol is a repeat with nothing to repeat
    let mut fields: Vec<(u64, usize)> = vec![(3, 14), (3, 5)];
    for pos in 0..3 {
        fields.push((if pos == 2 { 1 } else { 0 }, 3));
    }
    fields.push((0, 1)); // ShortRepeat (singleton key)
    fields.push((0, 2)); // its extra bits
    let data = pack_bits(&fields);
    let mut codec = Codec::new(&data);
    assert_eq!(codec.get_huffman().unwrap_err(), Error::RunLengthBeforeAnyDepth);
}

#[test]
fn table_stream_run_past_symbol_count() {
    // key table holds only ShortZero (position 0); its shortest run is 3,
    // which overshoots a symbol count of 2
    let mut fields: Vec<(u64, usize)> = vec![(2, 14), (1, 5)];
    fields.push((1, 3));
    fields.push((0, 1)); // ShortZero
    fields.push((0, 3)); // run of 0+3
    let data = pack_bits(&fields);
    let mut codec = Codec::new(&data);
    assert_eq!(codec.get_huffman().unwrap_err(), Error::RunLengthPastSymbolCount);
}

#[test]
fn table_stream_empty_table() {
    let data = pack_bits(&[(0, 14)]);
    let mut codec = Codec::new(&data);
    let h = codec.get_huffman().expect("empty table decodes");
    assert_eq!(codec.current(), 14);
    let mut c2 = Codec::new(&[0u8]);
    assert!(h.next(&mut c2).is_err());
}
