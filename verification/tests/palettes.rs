use crn_decode::codec::Codec;
use crn_decode::{Error, Format, Header, Huffman, Palette, Table};

/// Pack MSB-first bit fields into bytes, zero-padded to a byte boundary.
fn pack_bits(fields: &[(u64, usize)]) -> Vec<u8> {
    let mut bits: Vec<bool> = Vec::new();
    for &(v, w) in fields {
        for k in (0..w).rev() {
            bits.push((v >> k) & 1 == 1);
        }
    }
    while bits.len() % 8 != 0 {
        bits.push(false);
    }
    bits.chunks(8).map(|c| c.iter().fold(0u8, |a, &b| (a << 1) | b as u8)).collect()
}

/// The table-stream form of a two-symbol table over `{0, 1}`, both at
/// depth 1: code 0 decodes delta 0, code 1 decodes delta 1.
fn two_delta_table_fields(fields: &mut Vec<(u64, usize)>) {
    fields.push((2, 14)); // symbol count
    fields.push((19, 5)); // meta depths up to shuffle position 18, Depth(1)
    for pos in 0..19 {
        fields.push((if pos == 18 { 1 } else { 0 }, 3));
    }
    fields.push((0, 1)); // Depth(1) for symbol 0
    fields.push((0, 1)); // Depth(1) for symbol 1
}

fn header_with(f: impl FnOnce(&mut Header)) -> Header {
    let mut h = Header {
        magic: [0x48, 0x78],
        header_size: 74,
        header_crc16: 0,
        file_size: 0,
        data_crc16: 0,
        width: 4,
        height: 4,
        level_count: 1,
        face_count: 1,
        format: Format::Dxt5,
        flags: 0,
        reserved: 0,
        userdata: [0, 0],
        color_endpoints: Palette { offset: 0, size: 0, count: 0 },
        color_selectors: Palette { offset: 0, size: 0, count: 0 },
        alpha_endpoints: Palette { offset: 0, size: 0, count: 0 },
        alpha_selectors: Palette { offset: 0, size: 0, count: 0 },
        table_size: 0,
        table_offset: 0,
        level_offset: vec![0],
    };
    f(&mut h);
    h
}

#[test]
fn alpha_endpoints_accumulate_deltas() {
    let mut fields = Vec::new();
    two_delta_table_fields(&mut fields);
    // entry 1: da=1 db=1; entry 2: da=0 db=1
    fields.push((1, 1));
    fields.push((1, 1));
    fields.push((0, 1));
    fields.push((1, 1));
    let data = pack_bits(&fields);
    let h = header_with(|h| {
        h.alpha_endpoints = Palette { offset: 0, size: data.len() as u32, count: 2 };
    });
    let v = h.get_alpha_endpoints(&data).expect("palette decodes");
    assert_eq!(v, vec![(1, 1), (1, 2)]);
}

#[test]
fn alpha_endpoints_trailing_bytes_rejected() {
    let mut fields = Vec::new();
    two_delta_table_fields(&mut fields);
    fields.push((1, 1));
    fields.push((1, 1));
    fields.push((0, 1));
    fields.push((1, 1));
    let mut data = pack_bits(&fields);
    data.push(0); // one spare byte past the boundary
    let h = header_with(|h| {
        h.alpha_endpoints = Palette { offset: 0, size: data.len() as u32, count: 2 };
    });
    assert_eq!(h.get_alpha_endpoints(&data).unwrap_err(), Error::PaletteTrailingBytes);
}

#[test]
fn absent_palette_decodes_empty() {
    let h = header_with(|_| {});
    assert_eq!(h.get_alpha_endpoints(&[]).unwrap(), Vec::<(u8, u8)>::new());
    assert_eq!(h.get_color_endpoints(&[]).unwrap(), Vec::<(u16, u16)>::new());
    assert_eq!(h.get_color_selectors(&[]).unwrap(), Vec::<[u8; 4]>::new());
    assert_eq!(h.get_alpha_selectors(&[]).unwrap(), Vec::<[u8; 6]>::new());
}

#[test]
fn palette_descriptor_past_input_rejected() {
    let h = header_with(|h| {
        h.alpha_endpoints = Palette { offset: 4, size: 10, count: 2 };
    });
    assert_eq!(h.get_alpha_endpoints(&[0u8; 8]).unwrap_err(), Error::ReadPastEnd);
}

#[test]
fn color_endpoints_pack_rgb565() {
    let mut fields = Vec::new();
    two_delta_table_fields(&mut fields); // dm1
    two_delta_table_fields(&mut fields); // dm2
    // one entry, deltas da..df = 1,1,1,0,1,0 from dm1,dm2,dm1,dm1,dm2,dm1
    for b in [1u64, 1, 1, 0, 1, 0] {
        fields.push((b, 1));
    }
    let data = pack_bits(&fields);
    let h = header_with(|h| {
        h.color_endpoints = Palette { offset: 0, size: data.len() as u32, count: 1 };
    });
    let v = h.get_color_endpoints(&data).expect("palette decodes");
    // a=1 b=1 c=1 -> 1 | 1<<5 | 1<<11; d=0 e=1 f=0 -> 1<<5
    assert_eq!(v, vec![(0x0821, 0x0020)]);
}

#[test]
fn color_selectors_permute_and_pack() {
    let mut fields = Vec::new();
    two_delta_table_fields(&mut fields);
    // one entry, eight zero deltas: every cell becomes (1, 1), C[1] = 2,
    // so every 4-bit cell packs 2 | 2<<2 = 0xA
    for _ in 0..8 {
        fields.push((0, 1));
    }
    let data = pack_bits(&fields);
    let h = header_with(|h| {
        h.color_selectors = Palette { offset: 0, size: data.len() as u32, count: 1 };
    });
    let v = h.get_color_selectors(&data).expect("palette decodes");
    assert_eq!(v, vec![[0xAA, 0xAA, 0xAA, 0xAA]]);
}

#[test]
fn alpha_selectors_permute_and_pack() {
    let mut fields = Vec::new();
    two_delta_table_fields(&mut fields);
    // one entry, eight zero deltas: every cell becomes (1, 1), C[1] = 2,
    // so every 6-bit cell packs 2 | 2<<3 = 0b010010
    for _ in 0..8 {
        fields.push((0, 1));
    }
    let data = pack_bits(&fields);
    let h = header_with(|h| {
        h.alpha_selectors = Palette { offset: 0, size: data.len() as u32, count: 1 };
    });
    let v = h.get_alpha_selectors(&data).expect("palette decodes");
    assert_eq!(v, vec![[0x92, 0x24, 0x49, 0x92, 0x24, 0x49]]);
}

#[test]
fn empty_palette_delta_read_fails() {
    let delta = Huffman::new(vec![1u8, 1]).unwrap();
    let table: Table<(u8, u8)> = Table::new(delta, Vec::new());
    let data = [0x00u8];
    let mut codec = Codec::new(&data);
    let mut idx = 0usize;
    assert_eq!(table.next(&mut codec, &mut idx), Err(Error::EmptyPaletteAccess));
}

#[test]
fn table_next_wraps_cursor() {
    let delta = Huffman::new(vec![1u8, 1]).unwrap();
    let table: Table<u8> = Table::new(delta, vec![10, 20]);
    // bits 1,1,0,1: deltas 1,1,0,1 from cursor 0: 1, 0, 0, 1
    let data = [0b1101_0000u8];
    let mut codec = Codec::new(&data);
    let mut idx = 0usize;
    assert_eq!(table.next(&mut codec, &mut idx).unwrap(), 20);
    assert_eq!(idx, 1);
    assert_eq!(table.next(&mut codec, &mut idx).unwrap(), 10);
    assert_eq!(idx, 0);
    assert_eq!(table.next(&mut codec, &mut idx).unwrap(), 10);
    assert_eq!(table.next(&mut codec, &mut idx).unwrap(), 20);
}

#[test]
fn singleton_delta_consumes_any_bit() {
    // a one-symbol delta table yields delta 0 from either bit value; the
    // four entry deltas here are all 1 bits
    let mut fields: Vec<(u64, usize)> = vec![(1, 14), (19, 5)];
    for pos in 0..19 {
        fields.push((if pos == 18 { 1 } else { 0 }, 3));
    }
    fields.push((0, 1)); // Depth(1) for symbol 0
    fields.push((0b1111, 4)); // two entries, deltas from 1 bits
    let data = pack_bits(&fields);
    let h = header_with(|h| {
        h.alpha_endpoints = Palette { offset: 0, size: data.len() as u32, count: 2 };
    });
    let v = h.get_alpha_endpoints(&data).expect("palette decodes");
    assert_eq!(v, vec![(0, 0), (0, 0)]);
}
