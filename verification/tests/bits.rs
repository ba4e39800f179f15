use crn_decode::codec::{Codec, MAX_SYMBOL_COUNT, MAX_SYMBOL_COUNT_BIT};
use crn_decode::Error;

#[test]
fn test_read_bits() {
    let input = [0b1100_1010u8, 0b0110_1101, 0b1101_1001];
    let mut codec = Codec::new(&input);
    assert_eq!(codec.read_bits(3).unwrap(), 0b110);
    assert_eq!(codec.current(), 3);
    assert_eq!(codec.read_bits(17).unwrap(), 0b1010_0110_1101_1101);
    assert_eq!(codec.current(), 20);
    assert_eq!(codec.read_bits(0).unwrap(), 0);
    assert_eq!(codec.current(), 20);

    assert_eq!(MAX_SYMBOL_COUNT, 1 << (MAX_SYMBOL_COUNT_BIT - 1));
}

#[test]
fn read_past_end_fails_without_moving() {
    let input = [0xFFu8];
    let mut codec = Codec::new(&input);
    assert_eq!(codec.read_bits(5).unwrap(), 0b11111);
    assert_eq!(codec.read_bits(4), Err(Error::ReadPastEnd));
    assert_eq!(codec.current(), 5);
    assert_eq!(codec.read_bits(3).unwrap(), 0b111);
    assert_eq!(codec.read_bits(1), Err(Error::ReadPastEnd));
}

#[test]
fn look_is_pure_and_zero_padded() {
    let input = [0b1010_0000u8];
    let mut codec = Codec::new(&input);
    codec.skip_bits(6);
    // two bits remain (0b00); a wider look pads with zeros on the right
    assert_eq!(codec.look_bits(2), 0b00);
    assert_eq!(codec.look_bits(8), 0);
    assert_eq!(codec.current(), 6);
    let codec2 = Codec::new(&input);
    assert_eq!(codec2.look_bits(3), 0b101);
    assert_eq!(codec2.look_bits(3), 0b101);
    assert_eq!(codec2.current(), 0);
}

#[test]
fn is_complete_tracks_trailing_byte() {
    let input = [0x12u8, 0x34];
    let mut codec = Codec::new(&input);
    assert!(!codec.is_complete());
    codec.skip_bits(8);
    assert!(!codec.is_complete());
    codec.skip_bits(1);
    assert!(codec.is_complete());
    codec.skip_bits(7);
    assert!(codec.is_complete());
    assert_eq!(codec.len(), 16);
}
