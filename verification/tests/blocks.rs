use crn_decode::unpack::{count_tiles, tiles, Dxn, Dxt1, Dxt5, Dxt5A, TRUNK_SIZE};

#[test]
fn test_constant() {
    assert_eq!(TRUNK_SIZE * TRUNK_SIZE, 4);
    for i in 0..8 {
        let t = tiles(i);
        assert_eq!(t.len(), TRUNK_SIZE * TRUNK_SIZE);
        for &tile in t.iter() {
            assert!(tile < count_tiles(i));
        }
    }

    assert_eq!(Dxt1::default().to_bytes().len(), Dxt1::BLOCK_SIZE);
    assert_eq!(Dxt5::default().to_bytes().len(), Dxt5::BLOCK_SIZE);
    assert_eq!(Dxt5A::default().to_bytes().len(), Dxt5A::BLOCK_SIZE);
    assert_eq!(Dxn::default().to_bytes().len(), Dxn::BLOCK_SIZE);

    assert_eq!(
        Dxt5 {
            alpha_endpoint: (0x17, 0x18),
            alpha_selector: [0x20, 0x21, 0x22, 0x23, 0x24, 0x25],
            color_endpoint: (0x3234, 0x3537),
            color_selector: [0x49, 0x48, 0x47, 0x46],
        }
        .to_bytes(),
        [
            0x17, 0x18, 0x20, 0x21, 0x22, 0x23, 0x24, 0x25, 0x34, 0x32, 0x37, 0x35, 0x49, 0x48,
            0x47, 0x46
        ]
    );
}

#[test]
fn tile_tables_match_chunk_encoding() {
    assert_eq!(
        (0..8).map(count_tiles).collect::<Vec<_>>(),
        vec![1, 2, 2, 3, 3, 3, 3, 4]
    );
    assert_eq!(tiles(0), [0, 0, 0, 0]);
    assert_eq!(tiles(1), [0, 0, 1, 1]);
    assert_eq!(tiles(2), [0, 1, 0, 1]);
    assert_eq!(tiles(3), [0, 0, 1, 2]);
    assert_eq!(tiles(4), [1, 2, 0, 0]);
    assert_eq!(tiles(5), [0, 1, 0, 2]);
    assert_eq!(tiles(6), [1, 0, 2, 0]);
    assert_eq!(tiles(7), [0, 1, 2, 3]);
}

#[test]
fn block_layouts_are_little_endian() {
    assert_eq!(
        Dxt1 { color_endpoint: (0x1234, 0x5678), color_selector: [1, 2, 3, 4] }.to_bytes(),
        [0x34, 0x12, 0x78, 0x56, 1, 2, 3, 4]
    );
    assert_eq!(
        Dxt5A { alpha_endpoint: (0xAB, 0xCD), alpha_selector: [9, 8, 7, 6, 5, 4] }.to_bytes(),
        [0xAB, 0xCD, 9, 8, 7, 6, 5, 4]
    );
    assert_eq!(
        Dxn {
            alpha0_endpoint: (1, 2),
            alpha0_selector: [3, 4, 5, 6, 7, 8],
            alpha1_endpoint: (9, 10),
            alpha1_selector: [11, 12, 13, 14, 15, 16],
        }
        .to_bytes(),
        [1, 2, 3, 4, 5, 6, 7, 8, 9, 10, 11, 12, 13, 14, 15, 16]
    );
}
