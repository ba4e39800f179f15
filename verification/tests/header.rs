use crn_decode::{Error, Format, Header};

/// A minimal container prefix: fixed header plus one level offset.
fn sample_header_bytes() -> Vec<u8> {
    let mut b = vec![0u8; 74];
    b[0] = 0x48;
    b[1] = 0x78; // magic
    b[2] = 0x00;
    b[3] = 74; // header_size
    b[6..10].copy_from_slice(&[0, 0, 0, 74]); // file_size
    b[12] = 0x01;
    b[13] = 0x00; // width 256
    b[14] = 0x00;
    b[15] = 0x80; // height 128
    b[16] = 1; // level_count
    b[17] = 1; // face_count
    b[18] = 2; // format Dxt5
    b[19] = 0x00;
    b[20] = 0x2A; // flags
    // color_endpoints palette at offset 33: offset 0x000102, size 0x030405, count 0x0607
    b[33..41].copy_from_slice(&[0x00, 0x01, 0x02, 0x03, 0x04, 0x05, 0x06, 0x07]);
    b[65] = 0x00;
    b[66] = 0x10; // table_size
    b[67..70].copy_from_slice(&[0x00, 0x00, 0x4A]); // table_offset
    b[70..74].copy_from_slice(&[0x00, 0x00, 0x00, 0x4A]); // level 0 offset
    b
}

#[test]
fn parse_reads_fields_big_endian() {
    let b = sample_header_bytes();
    let h = Header::parse(&b).expect("header parses");
    assert_eq!(h.magic, [0x48, 0x78]);
    assert_eq!(h.header_size, 74);
    assert_eq!(h.file_size, 74);
    assert_eq!(h.width, 256);
    assert_eq!(h.height, 128);
    assert_eq!(h.level_count, 1);
    assert_eq!(h.face_count, 1);
    assert_eq!(h.format, Format::Dxt5);
    assert_eq!(h.flags, 0x2A);
    assert_eq!(h.color_endpoints.offset, 0x000102);
    assert_eq!(h.color_endpoints.size, 0x030405);
    assert_eq!(h.color_endpoints.count, 0x0607);
    assert_eq!(h.table_size, 0x10);
    assert_eq!(h.table_offset, 0x4A);
    assert_eq!(h.level_offset, vec![0x4A]);
    assert_eq!(h.block_size(), 16);
    assert_eq!(Header::fixed_size(), 70);
}

#[test]
fn parse_rejects_short_input() {
    assert_eq!(Header::parse(&[0u8; 69]).unwrap_err(), Error::ReadPastEnd);
    let mut b = sample_header_bytes();
    b.truncate(72); // not enough room for the level offset
    assert_eq!(Header::parse(&b).unwrap_err(), Error::ReadPastEnd);
}

#[test]
fn parse_rejects_unknown_format() {
    let mut b = sample_header_bytes();
    b[18] = 42;
    assert_eq!(Header::parse(&b).unwrap_err(), Error::UnsupportedFormat);
}

#[test]
fn crc16_known_values() {
    assert_eq!(Header::crc16(0, &[]), 0xFFFF);
    assert_eq!(Header::crc16(0, &[0x01]), 0xF1D1);
    // with the reflected polynomial 0xA001 and seed 0 this is the
    // conventional MODBUS CRC16
    assert_eq!(Header::crc16_poly(0, 0xA001, &[]), 0xFFFF);
    assert_eq!(Header::crc16_poly(0, 0xA001, b"123456789"), 0x4B37);
    assert_eq!(Header::crc16_poly(0, 0xA001, &[0x01]), 0x807E);
}

#[test]
fn format_default_and_tags() {
    assert_eq!(Format::default(), Format::Invalid);
    assert_eq!(Format::from_u8(0), Some(Format::Dxt1));
    assert_eq!(Format::from_u8(9), Some(Format::Dxt5A));
    assert_eq!(Format::from_u8(255), Some(Format::Invalid));
    assert_eq!(Format::from_u8(11), None);
}

#[test]
fn check_crc_accepts_consistent_container() {
    let mut b = sample_header_bytes();
    b.push(0xAB); // one data byte
    b[6..10].copy_from_slice(&[0, 0, 0, 75]); // file_size
    let data_crc = !Header::crc16(0, &b[74..]);
    b[10] = (data_crc >> 8) as u8;
    b[11] = (data_crc & 0xFF) as u8;
    let head_crc = !Header::crc16(0, &b[6..74]);
    b[4] = (head_crc >> 8) as u8;
    b[5] = (head_crc & 0xFF) as u8;
    let h = Header::parse(&b).expect("header parses");
    assert!(h.check_crc(&b));
    let mut bad = b.clone();
    bad[74] ^= 1;
    assert!(!h.check_crc(&bad));
}

#[test]
fn level_info_halves_and_clamps() {
    let b = sample_header_bytes();
    let mut h = Header::parse(&b).unwrap();
    h.level_count = 12;
    assert_eq!(h.get_level_info(0), Some((256, 128)));
    assert_eq!(h.get_level_info(2), Some((64, 32)));
    assert_eq!(h.get_level_info(9), Some((1, 1)));
    assert_eq!(h.get_level_info(12), None);
}
