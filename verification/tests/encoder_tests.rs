use qr_segment::encoder::{
    encode_alphanumeric, encode_numeric, encode_text, BitsWithLength, QrCode,
};

#[test]
fn test_alphanumeric_qr() {
    let data = "HELLO WORLD";
    let qr = QrCode::new(data.as_bytes());
    let bs = qr.encode();
    let goal1: u64 = 0b0010_000001011_01100001011_01111000110_10001011100_10110111000_1001101;
    let goal2: u64 = 0b0100_001101000_00000000000_00000000000_00000000000_00000000000_0000000;
    assert_eq!(bs.data()[0], goal1);
    assert_eq!(bs.data()[1], goal2);
}

#[test]
fn test_alphanumeric_h() {
    let data = "H";
    let res = encode_alphanumeric(data.as_bytes());
    let goal: u64 = 0b010001;
    assert_eq!(res[0], BitsWithLength(goal, 6));
}

#[test]
fn test_alphanumeric_he() {
    let data = "HE";
    let res = encode_alphanumeric(data.as_bytes());
    let goal: u64 = 0b01100001011;
    assert_eq!(res[0], BitsWithLength(goal, 11));
}

#[test]
fn test_alphanumeric_hell() {
    let data = "HELL";
    let res: Vec<_> = encode_alphanumeric(data.as_bytes());
    let goal: u64 = 0b01100001011;
    assert_eq!(res[0], BitsWithLength(goal, 11));
}

#[test]
fn test_numeric_1() {
    let data = "1";
    let res = encode_numeric(data.as_bytes());
    let goal: u64 = 0b1;
    assert_eq!(res[0], BitsWithLength(goal, 4));
}

#[test]
fn test_numeric_12() {
    let data = "12";
    let res = encode_numeric(data.as_bytes());
    let goal: u64 = 0b1100;
    assert_eq!(res[0], BitsWithLength(goal, 7));
}

#[test]
fn test_numeric_123() {
    let data = "123";
    let res = encode_numeric(data.as_bytes());
    let goal: u64 = 0b1111011;
    assert_eq!(res[0], BitsWithLength(goal, 10));
}

#[test]
fn test_numeric_999() {
    let data = "999";
    let res = encode_numeric(data.as_bytes());
    let goal: u64 = 0b1111100111;
    assert_eq!(res[0], BitsWithLength(goal, 10));
}

#[test]
fn test_numeric_1000() {
    let data = "1000";
    let res = encode_numeric(data.as_bytes());
    assert_eq!(res[0], BitsWithLength(0b1100100, 10));
    assert_eq!(res[1], BitsWithLength(0b0, 4));
}

#[test]
fn test_numeric_run_width_follows_character_count() {
    // A run's width comes from how many characters it holds, not from the
    // parsed value: three digits take 10 bits even with leading zeros.
    let res = encode_numeric("099".as_bytes());
    assert_eq!(res, vec![BitsWithLength(99, 10)]);
    let res = encode_numeric("0".as_bytes());
    assert_eq!(res, vec![BitsWithLength(0, 4)]);
}

#[test]
fn test_numeric_packet_count_is_length_ceil_thirds() {
    assert_eq!(encode_numeric("12345".as_bytes()).len(), 2);
    assert_eq!(encode_numeric("123456".as_bytes()).len(), 2);
    assert_eq!(encode_numeric("1234567".as_bytes()).len(), 3);
    assert_eq!(
        encode_numeric("12345".as_bytes()),
        vec![BitsWithLength(123, 10), BitsWithLength(45, 7)]
    );
}

#[test]
fn test_alphanumeric_trailing_single() {
    // "HEL" -> pair (H,E) then single L: codebook('L') = 21.
    let res = encode_alphanumeric("HEL".as_bytes());
    assert_eq!(res, vec![BitsWithLength(779, 11), BitsWithLength(21, 6)]);
}

#[test]
fn test_text_one_packet_per_byte() {
    let res = encode_text("ab".as_bytes());
    assert_eq!(res, vec![BitsWithLength(97, 8), BitsWithLength(98, 8)]);
    assert_eq!(encode_text("".as_bytes()), vec![]);
}

#[test]
fn test_encode_empty_payload() {
    // Empty input classifies as Numeric: indicator 0001, count 0 at width 10,
    // no payload packets -- 14 bits in all.
    let qr = QrCode::new("".as_bytes());
    let bs = qr.encode();
    assert_eq!(bs.data().len(), 1);
    assert_eq!(bs.data()[0], 0b0001_0000000000u64 << 50);
}

#[test]
fn test_encode_text_segment() {
    // "a" -> Text mode: 0100, count 00000001 at width 8, byte 01100001.
    let qr = QrCode::new("a".as_bytes());
    let bs = qr.encode();
    assert_eq!(bs.data()[0], 0b0100_00000001_01100001u64 << 44);
}

#[test]
fn test_encode_numeric_segment() {
    // "1123581321": 0001, count 10 at width 10, runs 112|358|132|1.
    let qr = QrCode::new("1123581321".as_bytes());
    let bs = qr.encode();
    let goal: u64 = 0b0001_0000001010_0001110000_0101100110_0010000100_0001u64 << 16;
    assert_eq!(bs.data()[0], goal);
}
