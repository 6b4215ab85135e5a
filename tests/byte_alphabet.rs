use base_custom::{BaseCustom, BaseError};

#[test]
fn byte_alphabet_must_have_minimal_characters() {
    assert_eq!(BaseCustom::<u8>::new(&[]), Err(BaseError::TooFewSymbols));
    assert_eq!(BaseCustom::<u8>::new(&[0x00]), Err(BaseError::TooFewSymbols));
    assert_eq!(BaseCustom::<u8>::new(&[0x00, 0x00, 0x00]), Err(BaseError::TooFewSymbols));
}

#[test]
fn byte_alphabet_rejects_all_256_bytes() {
    let all: Vec<u8> = (0..=255u8).collect();
    assert_eq!(BaseCustom::<u8>::new(&all), Err(BaseError::TooManySymbols));
    let most: Vec<u8> = (0..255u8).collect();
    let base = BaseCustom::<u8>::new(&most).unwrap();
    assert_eq!(base.base, 255);
    assert_eq!(base.gen(254), vec![254u8]);
    assert_eq!(base.gen(255), vec![1u8, 0u8]);
}

#[test]
fn lib_nth_should_return_none_for_out_of_bounds() {
    let base3 = BaseCustom::<u8>::new(b"ABC").unwrap();
    assert_eq!(base3.nth(12), None);
}

#[test]
fn lib_nth_should_return_zero_for_zero() {
    let base3 = BaseCustom::<u8>::new(b"ABC").unwrap();
    assert_eq!(base3.nth(0), Some(b'A'));
}

#[test]
fn lib_it_shows_zero_one_and_nth() {
    let base3 = BaseCustom::<u8>::new(b"ABC").unwrap();
    assert_eq!(base3.zero(), b'A');
    assert_eq!(base3.one(), b'B');
    assert_eq!(base3.nth(2), Some(b'C'));
    assert_eq!(base3.nth(3), None);
}

#[test]
fn nth_works() {
    let b = BaseCustom::<u8>::new(
        &[0xE8, 0xB0, 0x88, 0x6D, 0x97, 0x18, 0x4F, 0x1F, 0x65, 0xC7, 0x67, 0xF7, 0x93, 0x99, 0x65, 0xBF],
    )
    .unwrap();

    assert_eq!(b.nth(0), Some(0xE8));
    // 0x65 occurs twice; the second one is dropped.
    assert_eq!(b.base, 15);
    assert_eq!(b.nth(14), Some(0xBF));
}

#[test]
fn lib_it_works_with_binary() {
    let base2 = BaseCustom::<u8>::new(b"01").unwrap();
    assert_eq!(base2.decimal(b"00001"), Ok(1_u64));
    assert_eq!(base2.decimal(b"100110101"), Ok(309_u64));
    assert_eq!(base2.gen(340), b"101010100");
    assert_eq!(base2.gen(0xF45), b"111101000101");
    assert_eq!(base2.gen(0b111), b"111");
}

#[test]
fn lib_it_works_with_binary_with_duplicates() {
    let base2 = BaseCustom::<u8>::new(b"00011").unwrap();
    assert_eq!(base2.decimal(b"00001"), Ok(1_u64));
    assert_eq!(base2.decimal(b"100110101"), Ok(309_u64));
    assert_eq!(base2.gen(340), b"101010100");
    assert_eq!(base2.gen(0xF45), b"111101000101");
    assert_eq!(base2.gen(0b111), b"111");
}

#[test]
fn lib_it_works_with_trinary() {
    let base3 = BaseCustom::<u8>::new(b"ABC").unwrap();
    assert_eq!(base3.decimal(b"ABC"), Ok(5));
    assert_eq!(base3.gen(123), b"BBBCA");
}

#[test]
fn lib_it_works_with_decimal() {
    let base9 = BaseCustom::<u8>::new(b"0123456789").unwrap();
    assert_eq!(base9.gen(123), b"123");
    assert_eq!(base9.decimal(b"123"), Ok(123));
}

#[test]
fn lib_it_works_with_special_characters() {
    let base_sc = BaseCustom::<u8>::new(b"\n01\t").unwrap();
    assert_eq!(base_sc.gen(12345), b"\t\n\n\n\t10");
}

#[test]
fn lib_it_implements_parital_equality() {
    let base3a = BaseCustom::<u8>::new(b"ABC").unwrap();
    let base3b = BaseCustom::<u8>::new(b"ABC").unwrap();
    assert_eq!(base3a == base3b, true);

    let base3e = BaseCustom::<u8>::new(b"ABC").unwrap();
    let base3f = BaseCustom::<u8>::new(b"BCA").unwrap();
    assert_eq!(base3e == base3f, false);
}

#[test]
fn byte_alphabet_zero_is_the_zeroth_symbol() {
    let base = BaseCustom::<u8>::new(b"xyz").unwrap();
    assert_eq!(base.gen(0), vec![b'x']);
    assert_eq!(base.decimal(b"x"), Ok(0));
    assert_eq!(base.decimal(b""), Ok(0));
}

#[test]
fn byte_alphabet_unknown_symbol_and_overflow() {
    let base2 = BaseCustom::<u8>::new(b"01").unwrap();
    assert_eq!(base2.decimal(b"0120"), Err(BaseError::UnknownSymbol));
    let max = base2.gen(u64::MAX);
    assert_eq!(max.len(), 64);
    assert_eq!(base2.decimal(&max), Ok(u64::MAX));
    let mut over = max.clone();
    over.push(b'0');
    assert_eq!(base2.decimal(&over), Err(BaseError::Overflow));
    let mut padded = vec![b'0'; 100];
    padded.extend_from_slice(&max);
    assert_eq!(base2.decimal(&padded), Ok(u64::MAX));
}

#[test]
fn byte_alphabet_round_trips() {
    let base = BaseCustom::<u8>::new(&[7, 3, 200, 9, 3]).unwrap();
    for v in [0u64, 1, 2, 3, 4, 5, 1000, 123456789, u64::MAX - 1, u64::MAX] {
        assert_eq!(base.decimal(&base.gen(v)), Ok(v));
    }
}

#[test]
fn byte_alphabet_repeats_give_an_equal_table() {
    let with_repeats = BaseCustom::<u8>::new(b"abcabca").unwrap();
    let without = BaseCustom::<u8>::new(b"abc").unwrap();
    assert!(with_repeats == without);
    assert_eq!(with_repeats.gen(77), without.gen(77));
}

#[test]
fn byte_alphabet_debug_shows_the_table() {
    let base = BaseCustom::<u8>::new(b"01").unwrap();
    let shown = format!("{:?}", base);
    assert!(shown.contains("BaseCustom"));
    assert!(shown.contains("base: 2"));
    assert!(shown.contains("delim: None"));
}
