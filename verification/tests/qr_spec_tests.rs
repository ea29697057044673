use qr_segment::qr_spec::{
    alphanumeric_lookup, byte_is_alphanumeric, byte_is_numeric, count_length, identify_data_mode,
    DataMode, ErrorCorrectionLevel,
};

#[test]
fn test_identify_numeric_mode() {
    assert!(matches!(identify_data_mode("123".as_bytes()), DataMode::Numeric));
}

#[test]
fn test_identify_alphanumeric_mode() {
    assert!(matches!(identify_data_mode("HELLO WORLD".as_bytes()), DataMode::Alphanumeric));
    assert!(matches!(identify_data_mode("ABC123".as_bytes()), DataMode::Alphanumeric));
}

#[test]
fn test_identify_text_mode() {
    assert!(matches!(identify_data_mode("Hello World".as_bytes()), DataMode::Text));
    assert!(matches!(identify_data_mode("Hello, World!".as_bytes()), DataMode::Text));
}

#[test]
fn test_alphanumeric_lookup() {
    let h = *"H".as_bytes().first().unwrap();
    let e = *"E".as_bytes().first().unwrap();
    assert_eq!(alphanumeric_lookup(h), 17);
    assert_eq!(alphanumeric_lookup(e), 14);
}

#[test]
fn test_identify_empty_payload_is_numeric() {
    // The "every byte" membership tests hold vacuously on an empty payload.
    assert!(matches!(identify_data_mode("".as_bytes()), DataMode::Numeric));
}

#[test]
fn test_identify_one_outside_byte_forces_text() {
    assert!(matches!(identify_data_mode("HELLO;WORLD".as_bytes()), DataMode::Text));
    assert!(matches!(identify_data_mode("123a".as_bytes()), DataMode::Text));
}

#[test]
fn test_alphabet_membership() {
    assert!(byte_is_numeric(b'0'));
    assert!(byte_is_numeric(b'9'));
    assert!(!byte_is_numeric(b'/'));
    assert!(!byte_is_numeric(b':'));
    for b in "0123456789ABCXYZ $%*+-./:".bytes() {
        assert!(byte_is_alphanumeric(b));
    }
    for b in "abz,;!?#@_".bytes() {
        assert!(!byte_is_alphanumeric(b));
    }
}

#[test]
fn test_alphanumeric_lookup_full_codebook() {
    for (i, b) in "0123456789".bytes().enumerate() {
        assert_eq!(alphanumeric_lookup(b) as usize, i);
    }
    for (i, b) in ('A'..='Z').enumerate() {
        assert_eq!(alphanumeric_lookup(b as u8) as usize, 10 + i);
    }
    assert_eq!(alphanumeric_lookup(b' '), 36);
    assert_eq!(alphanumeric_lookup(b'$'), 37);
    assert_eq!(alphanumeric_lookup(b'%'), 38);
    assert_eq!(alphanumeric_lookup(b'*'), 39);
    assert_eq!(alphanumeric_lookup(b'+'), 40);
    assert_eq!(alphanumeric_lookup(b'-'), 41);
    assert_eq!(alphanumeric_lookup(b'.'), 42);
    assert_eq!(alphanumeric_lookup(b'/'), 43);
    assert_eq!(alphanumeric_lookup(b':'), 44);
}

#[test]
fn test_count_length_tier_boundaries() {
    assert_eq!(count_length(DataMode::Numeric, 9), 10);
    assert_eq!(count_length(DataMode::Numeric, 10), 12);
    assert_eq!(count_length(DataMode::Numeric, 26), 12);
    assert_eq!(count_length(DataMode::Numeric, 27), 14);
    assert_eq!(count_length(DataMode::Alphanumeric, 9), 9);
    assert_eq!(count_length(DataMode::Alphanumeric, 10), 11);
    assert_eq!(count_length(DataMode::Alphanumeric, 26), 11);
    assert_eq!(count_length(DataMode::Alphanumeric, 27), 13);
    assert_eq!(count_length(DataMode::Text, 9), 8);
    assert_eq!(count_length(DataMode::Text, 10), 16);
    assert_eq!(count_length(DataMode::Text, 27), 16);
    assert_eq!(count_length(DataMode::Kanji, 9), 8);
    assert_eq!(count_length(DataMode::Kanji, 10), 10);
    assert_eq!(count_length(DataMode::Kanji, 27), 12);
}

#[test]
fn test_mode_indicator_one_hot() {
    assert_eq!(DataMode::Numeric.encode(), 0b0001);
    assert_eq!(DataMode::Alphanumeric.encode(), 0b0010);
    assert_eq!(DataMode::Text.encode(), 0b0100);
    assert_eq!(DataMode::Kanji.encode(), 0b1000);
}

#[test]
fn test_defaults() {
    assert!(matches!(DataMode::default(), DataMode::Text));
    assert!(matches!(ErrorCorrectionLevel::default(), ErrorCorrectionLevel::Low));
}
