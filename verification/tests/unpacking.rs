use crn_decode::codec::Codec;
use crn_decode::unpack::{Dxt5, Dxt5A};
use crn_decode::{Error, Format, Header, Huffman, Palette, Table, Tables};

fn hm(depths: Vec<u8>) -> Huffman {
    Huffman::new(depths).expect("complete tree")
}

/// Tables where every stream is a one-symbol table: each decode consumes
/// one zero bit and yields delta 0.
fn singleton_tables() -> Tables {
    Tables {
        chunk_encoding: hm(vec![1]),
        color_endpoint: Table::new(hm(vec![1]), vec![(0xAAAA, 0xBBBB)]),
        color_selector: Table::new(hm(vec![1]), vec![[1, 2, 3, 4]]),
        alpha_endpoint: Table::new(hm(vec![1]), vec![(0x11, 0x22)]),
        alpha_selector: Table::new(hm(vec![1]), vec![[1, 2, 3, 4, 5, 6]]),
    }
}

const DXT5_BLOCK: [u8; 16] =
    [0x11, 0x22, 1, 2, 3, 4, 5, 6, 0xAA, 0xAA, 0xBB, 0xBB, 1, 2, 3, 4];

#[test]
fn dxt5_single_chunk_level() {
    let tables = singleton_tables();
    // one 2x2-block chunk, block_x = block_y = 1: 11 bits of zeros
    let data = [0x00u8, 0x00];
    let mut codec = Codec::new(&data);
    let out = Dxt5::unpack(&tables, &mut codec, 4, 4, 1).expect("level decodes");
    assert_eq!(out.len(), 16);
    assert_eq!(out, DXT5_BLOCK.to_vec());
    assert!(codec.is_complete());
}

#[test]
fn dxt5_odd_blocks_write_only_unclipped() {
    let tables = singleton_tables();
    // width 12, height 4: 3x1 blocks, 2x1 chunks, both extents odd
    let data = [0x00u8, 0x00, 0x00];
    let mut codec = Codec::new(&data);
    let out = Dxt5::unpack(&tables, &mut codec, 12, 4, 1).expect("level decodes");
    assert_eq!(out.len(), 48);
    for b in 0..3 {
        assert_eq!(&out[b * 16..b * 16 + 16], &DXT5_BLOCK);
    }
}

#[test]
fn dxt5_trailing_level_bytes_rejected() {
    let tables = singleton_tables();
    let data = [0x00u8, 0x00, 0x00];
    let mut codec = Codec::new(&data);
    assert_eq!(
        Dxt5::unpack(&tables, &mut codec, 4, 4, 1).unwrap_err(),
        Error::LevelTrailingBytes
    );
}

#[test]
fn dxt5a_cursors_persist_across_faces() {
    let tables = Tables {
        chunk_encoding: hm(vec![1]),
        color_endpoint: Table::new(hm(Vec::new()), Vec::new()),
        color_selector: Table::new(hm(Vec::new()), Vec::new()),
        alpha_endpoint: Table::new(hm(vec![1, 1]), vec![(0x10, 0x11), (0x20, 0x21)]),
        alpha_selector: Table::new(hm(vec![1]), vec![[9, 8, 7, 6, 5, 4]]),
    };
    // six 4x4 faces; per-face endpoint deltas 1,1,0,1,0,0 walk the
    // two-entry palette without resetting between faces
    let data = [0x42u8, 0x00, 0x40, 0x00];
    let mut codec = Codec::new(&data);
    let out = Dxt5A::unpack(&tables, &mut codec, 4, 4, 6).expect("level decodes");
    assert_eq!(out.len(), 48);
    let expected_eps = [
        (0x20u8, 0x21u8),
        (0x10, 0x11),
        (0x10, 0x11),
        (0x20, 0x21),
        (0x20, 0x21),
        (0x20, 0x21),
    ];
    for (f, &(a, b)) in expected_eps.iter().enumerate() {
        assert_eq!(&out[f * 8..f * 8 + 8], &[a, b, 9, 8, 7, 6, 5, 4]);
    }
    assert!(codec.is_complete());
}

fn level_header() -> Header {
    Header {
        magic: [0x48, 0x78],
        header_size: 74,
        header_crc16: 0,
        file_size: 2,
        data_crc16: 0,
        width: 4,
        height: 4,
        level_count: 1,
        face_count: 1,
        format: Format::Dxt5,
        flags: 0,
        reserved: 0,
        userdata: [0, 0],
        color_endpoints: Palette { offset: 0, size: 0, count: 0 },
        color_selectors: Palette { offset: 0, size: 0, count: 0 },
        alpha_endpoints: Palette { offset: 0, size: 0, count: 0 },
        alpha_selectors: Palette { offset: 0, size: 0, count: 0 },
        table_size: 0,
        table_offset: 0,
        level_offset: vec![0],
    }
}

#[test]
fn unpack_level_dispatches_on_format() {
    let tables = singleton_tables();
    let input = [0x00u8, 0x00];
    let h = level_header();
    let out = h.unpack_level(&tables, &input, 0).expect("level decodes");
    assert_eq!(out, DXT5_BLOCK.to_vec());

    assert_eq!(h.unpack_level(&tables, &input, 1).unwrap_err(), Error::LevelOutOfRange);

    let mut dxt3 = level_header();
    dxt3.format = Format::Dxt3;
    assert_eq!(dxt3.unpack_level(&tables, &input, 0).unwrap_err(), Error::UnsupportedFormat);

    let mut no_face = level_header();
    no_face.face_count = 0;
    assert_eq!(no_face.unpack_level(&tables, &input, 0).unwrap_err(), Error::UnsupportedFormat);
}

/// Pack MSB-first bit fields into bytes, zero-padded to a byte boundary.
fn pack_bits(fields: &[(u64, usize)]) -> Vec<u8> {
    let mut bits: Vec<bool> = Vec::new();
    for &(v, w) in fields {
        for k in (0..w).rev() {
            bits.push((v >> k) & 1 == 1);
        }
    }
    while bits.len() % 8 != 0 {
        bits.push(false);
    }
    bits.chunks(8).map(|c| c.iter().fold(0u8, |a, &b| (a << 1) | b as u8)).collect()
}

/// The table-stream form of a one-symbol table: `{0 -> depth 1}`.
fn singleton_table_fields(fields: &mut Vec<(u64, usize)>) {
    fields.push((1, 14));
    fields.push((19, 5));
    for pos in 0..19 {
        fields.push((if pos == 18 { 1 } else { 0 }, 3));
    }
    fields.push((0, 1));
}

#[test]
fn get_table_reads_five_tables() {
    let mut fields = Vec::new();
    for _ in 0..5 {
        singleton_table_fields(&mut fields);
    }
    let data = pack_bits(&fields);
    assert_eq!(data.len(), 49);
    let mut h = level_header();
    h.table_offset = 0;
    h.table_size = data.len() as u16;
    let tables = h.get_table(&data).expect("table stream decodes");
    assert_eq!(tables.color_endpoint.entries.len(), 0);
    assert_eq!(tables.alpha_selector.entries.len(), 0);
    // the chunk-encoding table decodes its one symbol from a zero bit
    let one = [0x00u8];
    let mut codec = Codec::new(&one);
    assert_eq!(tables.chunk_encoding.next(&mut codec).unwrap(), 0);

    let mut padded = data.clone();
    padded.push(0);
    let mut h2 = level_header();
    h2.table_size = padded.len() as u16;
    assert_eq!(h2.get_table(&padded).unwrap_err(), Error::TableTrailingBytes);
}

#[test]
fn dxt1_serpentine_row_reverses() {
    // 16x16: a 2x2 chunk grid. The color-endpoint deltas 1,0,0,1 leave the
    // two-entry palette cursor at B,B,B,A in decode order; the serpentine
    // scan visits (0,0),(1,0),(1,1),(0,1), so the A lands at chunk (0,1).
    let a = (0x1111u16, 0x2222u16);
    let b = (0x3333u16, 0x4444u16);
    let tables = Tables {
        chunk_encoding: hm(vec![1]),
        color_endpoint: Table::new(hm(vec![1, 1]), vec![a, b]),
        color_selector: Table::new(hm(vec![1]), vec![[1, 2, 3, 4]]),
        alpha_endpoint: Table::new(hm(Vec::new()), Vec::new()),
        alpha_selector: Table::new(hm(Vec::new()), Vec::new()),
    };
    let data = [0x40u8, 0x00, 0x40];
    let mut codec = Codec::new(&data);
    let out = crn_decode::unpack::Dxt1::unpack(&tables, &mut codec, 16, 16, 1)
        .expect("level decodes");
    assert_eq!(out.len(), 128);
    let block_a = [0x11u8, 0x11, 0x22, 0x22, 1, 2, 3, 4];
    let block_b = [0x33u8, 0x33, 0x44, 0x44, 1, 2, 3, 4];
    for row in 0..4usize {
        for col in 0..4usize {
            let chunk = (row / 2, col / 2);
            let expect = if chunk == (1, 0) { &block_a } else { &block_b };
            let pos = row * 32 + col * 8;
            assert_eq!(&out[pos..pos + 8], expect, "block ({row},{col})");
        }
    }
    assert!(codec.is_complete());
}

#[test]
fn dxn_pairs_two_alpha_streams() {
    let tables = Tables {
        chunk_encoding: hm(vec![1]),
        color_endpoint: Table::new(hm(Vec::new()), Vec::new()),
        color_selector: Table::new(hm(Vec::new()), Vec::new()),
        alpha_endpoint: Table::new(hm(vec![1]), vec![(0x11, 0x22)]),
        alpha_selector: Table::new(hm(vec![1]), vec![[1, 2, 3, 4, 5, 6]]),
    };
    // one chunk: refill + two endpoint deltas + four selector pairs
    let data = [0x00u8, 0x00];
    let mut codec = Codec::new(&data);
    let out = crn_decode::unpack::Dxn::unpack(&tables, &mut codec, 4, 4, 1)
        .expect("level decodes");
    assert_eq!(out, vec![0x11, 0x22, 1, 2, 3, 4, 5, 6, 0x11, 0x22, 1, 2, 3, 4, 5, 6]);
}

#[test]
fn four_tile_chunk_maps_positions_to_tiles() {
    // chunk-encoding symbol 7 selects the four-tile structure [0,1,2,3];
    // endpoint deltas 1,1,1,1 walk a four-entry palette to 1,2,3,0
    let eps = vec![(10u8, 11u8), (20, 21), (30, 31), (40, 41)];
    let tables = Tables {
        chunk_encoding: hm(vec![0, 0, 0, 0, 0, 0, 0, 1]),
        color_endpoint: Table::new(hm(Vec::new()), Vec::new()),
        color_selector: Table::new(hm(Vec::new()), Vec::new()),
        alpha_endpoint: Table::new(hm(vec![1, 1]), eps),
        alpha_selector: Table::new(hm(vec![1]), vec![[9, 8, 7, 6, 5, 4]]),
    };
    let data = [0x78u8, 0x00];
    let mut codec = Codec::new(&data);
    let out = crn_decode::unpack::Dxt5A::unpack(&tables, &mut codec, 8, 8, 1)
        .expect("level decodes");
    assert_eq!(out.len(), 32);
    // block (row, col) holds the tile at position 2*row + col
    let expect = [(20u8, 21u8), (30, 31), (40, 41), (10, 11)];
    for i in 0..4usize {
        let (row, col) = (i / 2, i % 2);
        let pos = row * 16 + col * 8;
        assert_eq!(&out[pos..pos + 8], &[expect[i].0, expect[i].1, 9, 8, 7, 6, 5, 4]);
    }
    assert!(codec.is_complete());
}

#[test]
fn zero_extent_level_is_empty() {
    let tables = singleton_tables();
    let data: [u8; 0] = [];
    let mut codec = Codec::new(&data);
    let out = Dxt5::unpack(&tables, &mut codec, 0, 0, 1).expect("empty level decodes");
    assert_eq!(out.len(), 0);
    assert!(codec.is_complete());
}

#[test]
fn empty_chunk_table_fails_on_refill() {
    // a level that needs a chunk-encoding symbol but has an empty table
    let tables = Tables {
        chunk_encoding: hm(Vec::new()),
        color_endpoint: Table::new(hm(vec![1]), vec![(0, 0)]),
        color_selector: Table::new(hm(vec![1]), vec![[0; 4]]),
        alpha_endpoint: Table::new(hm(vec![1]), vec![(0, 0)]),
        alpha_selector: Table::new(hm(vec![1]), vec![[0; 6]]),
    };
    let data = [0x00u8];
    let mut codec = Codec::new(&data);
    assert_eq!(
        Dxt5::unpack(&tables, &mut codec, 4, 4, 1).unwrap_err(),
        Error::HuffmanNoMatch
    );
}
