use av1_bitstream::bits::BitstreamReader;

const DATA_BUF: [u8; 34] = [
    0b10110011, 0b10001111, 0b00001111, 0b10000011, 0b11110000, 0b00111111, 0b10000000,
    0b11111111, 0b00000000, 0b11111111, 0b10000000, 0b00111111, 0b11110000, 0b00000011,
    0b11111111, 0b10000000, 0b00001111, 0b11111111, 0b00000000, 0b00001111, 0b11111111,
    0b10000000, 0b00000011, 0b11111111, 0b11110000, 0b00000000, 0b00111111, 0b11111111,
    0b10000000, 0b00000000, 0b11111111, 0b11111111, 0b00000000, 0b00000000,
];

#[test]
fn f_simple() {
    let mut bs = BitstreamReader::new(&DATA_BUF);

    for i in 1..=16 {
        assert_eq!(bs.f(i).unwrap(), (1u32 << i) - 1);
        assert_eq!(bs.f(i).unwrap(), 0);
    }

    // Should get EOF now
    assert!(bs.f(1).is_err());
}

#[test]
fn f_edge() {
    let mut bs = BitstreamReader::new(&DATA_BUF);

    let dword = ((DATA_BUF[0] as u32) << 24)
        | ((DATA_BUF[1] as u32) << 16)
        | ((DATA_BUF[2] as u32) << 8)
        | (DATA_BUF[3] as u32);
    assert_eq!(bs.f(31).unwrap(), dword >> 1);
    assert_eq!(bs.f(2).unwrap(), ((dword & 1) << 1) | 1);
}

#[test]
fn uvlc_32_leading_zeroes() {
    const TEST_BUF: [u8; 5] = [0x00, 0x00, 0x00, 0x00, 0x80];

    let mut bs = BitstreamReader::new(&TEST_BUF);
    assert_eq!(bs.uvlc().unwrap(), u32::MAX);
}

#[test]
fn uvlc_33_leading_zeroes() {
    const TEST_BUF: [u8; 5] = [0x00, 0x00, 0x00, 0x00, 0x40];

    let mut bs = BitstreamReader::new(&TEST_BUF);
    assert_eq!(bs.uvlc().unwrap(), u32::MAX);
}

#[test]
fn uvlc_9_leading_zeroes_value_2() {
    const TEST_BUF: [u8; 3] = [0x00, 0b01000000, 0b01000000];

    let mut bs = BitstreamReader::new(&TEST_BUF);
    assert_eq!(bs.uvlc().unwrap(), 1 + (1 << 9));
}

#[test]
fn uvlc_9_leading_zeroes_value_14() {
    const TEST_BUF: [u8; 3] = [0x00, 0b01000001, 0b11000000];

    let mut bs = BitstreamReader::new(&TEST_BUF);
    assert_eq!(bs.uvlc().unwrap(), 13 + (1 << 9));
}

#[test]
fn uvlc_8_leading_zeroes_value_1() {
    const TEST_BUF: [u8; 3] = [0x00, 0b10000000, 0b10000000];

    let mut bs = BitstreamReader::new(&TEST_BUF);
    assert_eq!(bs.uvlc().unwrap(), 1 << 8);
}

#[test]
fn uvlc_8_leading_zeroes_value_255() {
    const TEST_BUF: [u8; 3] = [0x00, 0b11111111, 0b10000000];

    let mut bs = BitstreamReader::new(&TEST_BUF);
    assert_eq!(bs.uvlc().unwrap(), 254 + (1 << 8));
}

#[test]
fn uvlc_5_leading_zeroes_value_8() {
    const TEST_BUF: [u8; 2] = [0b00000101, 0b00000000];

    let mut bs = BitstreamReader::new(&TEST_BUF);
    assert_eq!(bs.uvlc().unwrap(), 7 + (1 << 5));
}

#[test]
fn uvlc_5_leading_zeroes_value_11() {
    const TEST_BUF: [u8; 2] = [0b00000101, 0b01100000];

    let mut bs = BitstreamReader::new(&TEST_BUF);
    assert_eq!(bs.uvlc().unwrap(), 10 + (1 << 5));
}

#[test]
fn su_4() {
    const TEST_BUF: [u8; 2] = [0b00011111, 0b00101110];

    let mut bs = BitstreamReader::new(&TEST_BUF);
    assert_eq!(bs.su(4).unwrap(), 1);
    assert_eq!(bs.su(4).unwrap(), -1);
    assert_eq!(bs.su(4).unwrap(), 2);
    assert_eq!(bs.su(4).unwrap(), -2);
}

#[test]
fn su_7() {
    const TEST_BUF: [u8; 2] = [0b00000011, 0b11111100];

    let mut bs = BitstreamReader::new(&TEST_BUF);
    assert_eq!(bs.su(7).unwrap(), 1);
    assert_eq!(bs.su(7).unwrap(), -1);
}

#[test]
fn su_32() {
    const TEST_BUF: [u8; 8] = [0x00, 0xff, 0xff, 0xff, 0xff, 0xff, 0xff, 0xff];

    let mut bs = BitstreamReader::new(&TEST_BUF);
    assert_eq!(bs.su(32).unwrap(), 0xffffff);
    assert_eq!(bs.su(32).unwrap(), -1);
}

#[test]
fn ns_5() {
    const TEST_BUF: [u8; 2] = [0b00011011, 0b01110000];

    let mut bs = BitstreamReader::new(&TEST_BUF);
    assert_eq!(bs.ns(5).unwrap(), 0);
    assert_eq!(bs.ns(5).unwrap(), 1);
    assert_eq!(bs.ns(5).unwrap(), 2);
    assert_eq!(bs.ns(5).unwrap(), 3);
    assert_eq!(bs.ns(5).unwrap(), 4);
}

#[test]
fn f_split_matches_single_read() {
    // f(4) then f(8) yields the same bits as f(12) split into groups.
    let data: Vec<u8> = vec![0xAB, 0xCD];
    let mut one = BitstreamReader::new(&data);
    let whole = one.f(12).unwrap();

    let mut two = BitstreamReader::new(&data);
    let hi = two.f(4).unwrap();
    let lo = two.f(8).unwrap();
    assert_eq!(whole, (hi << 8) | lo);
    assert_eq!(hi, 0xA);
    assert_eq!(lo, 0xBC);
}

#[test]
fn f_eof_does_not_advance() {
    let data: Vec<u8> = vec![0b10110011];
    let mut bs = BitstreamReader::new(&data);
    assert_eq!(bs.f(4).unwrap(), 0b1011);
    // Only 4 bits remain: an 8-bit read fails, twice, without consuming.
    assert!(bs.f(8).is_err());
    assert!(bs.f(8).is_err());
    assert_eq!(bs.f(4).unwrap(), 0b0011);
}

#[test]
fn leb128_single_byte() {
    let data: Vec<u8> = vec![0x01];
    let mut bs = BitstreamReader::new(&data);
    assert_eq!(bs.leb128().unwrap(), 1);
}

#[test]
fn leb128_continuation() {
    let data: Vec<u8> = vec![0x81, 0x01];
    let mut bs = BitstreamReader::new(&data);
    assert_eq!(bs.leb128().unwrap(), 129);
}

#[test]
fn leb128_stops_after_eight_bytes() {
    let data: Vec<u8> = vec![0xFF, 0xFF, 0xFF, 0xFF, 0xFF, 0xFF, 0xFF, 0xFF, 0xAA];
    let mut bs = BitstreamReader::new(&data);
    assert_eq!(bs.leb128().unwrap(), (1u64 << 56) - 1);
    // The ninth byte is untouched.
    assert_eq!(bs.f(8).unwrap(), 0xAA);
}

#[test]
fn le_two_bytes() {
    let data: Vec<u8> = vec![0x34, 0x12];
    let mut bs = BitstreamReader::new(&data);
    assert_eq!(bs.le(2).unwrap(), 0x1234);
}

#[test]
fn le_four_bytes() {
    let data: Vec<u8> = vec![0x78, 0x56, 0x34, 0x12];
    let mut bs = BitstreamReader::new(&data);
    assert_eq!(bs.le(4).unwrap(), 0x12345678);
}

#[test]
fn uvlc_zero_leading_zeroes() {
    // A leading one bit decodes to 0.
    let data: Vec<u8> = vec![0b10000000];
    let mut bs = BitstreamReader::new(&data);
    assert_eq!(bs.uvlc().unwrap(), 0);
}

#[test]
fn uvlc_eof_restores_cursor() {
    // All-zero bits: the terminating one bit never comes.
    let data: Vec<u8> = vec![0x00];
    let mut bs = BitstreamReader::new(&data);
    assert!(bs.uvlc().is_err());
    // The cursor still holds all eight bits.
    assert_eq!(bs.f(8).unwrap(), 0);
}

#[test]
fn su_4_covers_whole_range() {
    // All sixteen 4-bit patterns, most significant first: 0..=7 then -8..=-1.
    let data: Vec<u8> = vec![
        0b00000001, 0b00100011, 0b01000101, 0b01100111, 0b10001001, 0b10101011, 0b11001101,
        0b11101111,
    ];
    let mut bs = BitstreamReader::new(&data);
    for expected in 0..8 {
        assert_eq!(bs.su(4).unwrap(), expected);
    }
    for expected in -8..0 {
        assert_eq!(bs.su(4).unwrap(), expected);
    }
}

#[test]
fn ns_1_reads_nothing() {
    let data: Vec<u8> = vec![0xFF];
    let mut bs = BitstreamReader::new(&data);
    assert_eq!(bs.ns(1).unwrap(), 0);
    // All eight bits are still there.
    assert_eq!(bs.f(8).unwrap(), 0xFF);
}
