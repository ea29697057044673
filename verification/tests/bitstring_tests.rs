use qr_segment::bitstring::Bitstring;

#[test]
fn test_add() {
    let num: usize = (68 - 66) / 64 + 1;
    assert_eq!(num, 1);
}

#[test]
fn test_bitstring_set() {
    let mut bs = Bitstring::new();
    bs.set(true);
    assert_eq!(bs.data()[0], 0b1u64 << 63);
}

#[test]
fn test_bitstring_push() {
    let mut bs = Bitstring::new();
    bs.push(0b100100, 60); // <54 x 0><100100>0000
    bs.push(0b100100, 6); // <54 x 0><100100><1|00100>
    assert_eq!(bs.data()[0], 0b1001001001);
    assert_eq!(bs.data()[1], 0b0);
}

#[test]
fn test_push_zero_width_is_noop() {
    let mut bs = Bitstring::new();
    bs.push(0xABC, 0);
    assert_eq!(bs.data().len(), 1);
    assert_eq!(bs.data()[0], 0);
    bs.set(true);
    assert_eq!(bs.data()[0], 0b1u64 << 63);
}

#[test]
fn test_push_truncates_to_width() {
    let mut bs = Bitstring::new();
    bs.push(0b101, 3);
    bs.push(0xFFFF, 4); // only the low 4 bits land in the stream
    assert_eq!(bs.data()[0], 0b1011111u64 << 57);
}

#[test]
fn test_push_straddles_word_boundary() {
    let mut bs = Bitstring::new();
    bs.push(0, 60);
    bs.push(0b10111111, 8); // 4 bits close word 0, 4 bits open word 1
    assert_eq!(bs.data().len(), 2);
    assert_eq!(bs.data()[0], 0b1011);
    assert_eq!(bs.data()[1], 0b1111u64 << 60);
}

#[test]
fn test_new_is_empty_single_word() {
    let bs = Bitstring::new();
    assert_eq!(bs.data().len(), 1);
    assert_eq!(bs.data()[0], 0);
}

#[test]
fn test_sixty_four_sets_fill_one_word() {
    let mut bs = Bitstring::new();
    let mut i: usize = 0;
    while i < 64 {
        bs.set(true);
        i += 1;
    }
    assert_eq!(bs.data().len(), 1);
    assert_eq!(bs.data()[0], u64::MAX);
    bs.set(true);
    assert_eq!(bs.data().len(), 2);
    assert_eq!(bs.data()[1], 0b1u64 << 63);
}
