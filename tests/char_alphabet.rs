use base_custom::{BaseCustom, BaseError};

#[test]
fn char_alphabet_must_have_minimal_characters() {
    assert_eq!(BaseCustom::<char>::new("".chars().collect()), Err(BaseError::TooFewSymbols));
    assert_eq!(BaseCustom::<char>::new("0".chars().collect()), Err(BaseError::TooFewSymbols));
    assert_eq!(BaseCustom::<char>::new("00".chars().collect()), Err(BaseError::TooFewSymbols));
}

#[test]
fn char_alphabet_rejects_more_than_255() {
    let many: Vec<char> = (0x100u32..0x200).map(|c| char::from_u32(c).unwrap()).collect();
    assert_eq!(BaseCustom::<char>::new(many.clone()), Err(BaseError::TooManySymbols));
    let fits: Vec<char> = many[..255].to_vec();
    assert_eq!(BaseCustom::<char>::new(fits).unwrap().base, 255);
}

#[test]
fn nth_should_return_none_for_out_of_bounds() {
    let base3 = BaseCustom::<char>::new("ABC".chars().collect()).unwrap();
    assert_eq!(base3.nth(12), None);
}

#[test]
fn nth_should_return_zero_for_zero() {
    let base3 = BaseCustom::<char>::new("ABC".chars().collect()).unwrap();
    assert_eq!(base3.nth(0), Some(&'A'));
}

#[test]
fn it_shows_zero_one_and_nth() {
    let base3 = BaseCustom::<char>::new("ABC".chars().collect()).unwrap();
    assert_eq!(base3.zero(), &'A');
    assert_eq!(base3.one(), &'B');
    assert_eq!(base3.nth(2), Some(&'C'));
}

#[test]
fn it_works_with_binary() {
    let base2 = BaseCustom::<char>::new(vec!['0', '1']).unwrap();
    assert_eq!(base2.decimal("00001"), Ok(1_u64));
    assert_eq!(base2.decimal("100110101"), Ok(309_u64));
    assert_eq!(base2.gen(340), "101010100");
    assert_eq!(base2.gen(0xF45), "111101000101");
    assert_eq!(base2.gen(0b111), "111");
}

#[test]
fn it_works_with_binary_with_duplicates() {
    let base2 = BaseCustom::<char>::new(vec!['0', '0', '0', '1', '1']).unwrap();
    assert_eq!(base2.decimal("00001"), Ok(1_u64));
    assert_eq!(base2.decimal("100110101"), Ok(309_u64));
    assert_eq!(base2.gen(340), "101010100");
    assert_eq!(base2.gen(0xF45), "111101000101");
    assert_eq!(base2.gen(0b111), "111");
}

#[test]
fn it_works_with_binary_from_ordinal_range() {
    let base2 = BaseCustom::<char>::from_ordinal_range(48..50).unwrap();
    assert_eq!(base2.decimal("00001"), Ok(1_u64));
    assert_eq!(base2.decimal("100110101"), Ok(309_u64));
    assert_eq!(base2.gen(340), "101010100");
    assert_eq!(base2.gen(0xF45), "111101000101");
    assert_eq!(base2.gen(0b111), "111");
}

#[test]
fn it_can_convert_base_10_on_u64_max() {
    let base10 = BaseCustom::<char>::from_ordinal_range(48..58).unwrap();
    assert_eq!(base10.gen(18446744073709551615), "18446744073709551615");
    assert_eq!(base10.decimal("18446744073709551615"), Ok(18446744073709551615));
    assert_eq!(base10.decimal("18446744073709551616"), Err(BaseError::Overflow));
}

#[test]
fn it_works_with_binary_from_min_of_ordinal_range() {
    let base2 = BaseCustom::<char>::from_ordinal_range(0..34).unwrap();
    assert_eq!(base2.decimal("!"), Ok(1_u64));
    assert_eq!(base2.gen(340), "! ! ! !  ");
}

#[test]
fn it_works_with_binary_from_max_of_ordinal_range() {
    let base2 = BaseCustom::<char>::from_ordinal_range(125..500).unwrap();
    assert_eq!(base2.decimal("~"), Ok(1_u64));
    assert_eq!(base2.gen(340), "~}~}~}~}}");
}

#[test]
fn ordinal_range_too_narrow_or_outside() {
    assert_eq!(BaseCustom::<char>::from_ordinal_range(48..49), Err(BaseError::TooFewSymbols));
    assert_eq!(BaseCustom::<char>::from_ordinal_range(0..32), Err(BaseError::TooFewSymbols));
    assert_eq!(BaseCustom::<char>::from_ordinal_range(126..500), Err(BaseError::TooFewSymbols));
    assert_eq!(BaseCustom::<char>::from_ordinal_range(60..50), Err(BaseError::TooFewSymbols));
    let printable = BaseCustom::<char>::from_ordinal_range(0..1000).unwrap();
    assert_eq!(printable.base, 95);
    assert_eq!(printable.zero(), &' ');
    assert_eq!(printable.nth(94), Some(&'~'));
}

#[test]
fn it_works_with_trinary() {
    let base3 = BaseCustom::<char>::new("ABC".chars().collect()).unwrap();
    assert_eq!(base3.decimal("ABC"), Ok(5));
    assert_eq!(base3.gen(123), "BBBCA");
}

#[test]
fn it_works_with_decimal() {
    let base9 = BaseCustom::<char>::new("0123456789".chars().collect()).unwrap();
    assert_eq!(base9.gen(123), "123");
    assert_eq!(base9.decimal("123"), Ok(123));
}

#[test]
fn it_works_with_special_characters() {
    let base_sc = BaseCustom::<char>::new("\n01\t".chars().collect()).unwrap();
    assert_eq!(base_sc.gen(12345), "\t\n\n\n\t10");
}

#[test]
fn it_implements_parital_equality() {
    let base3a = BaseCustom::<char>::new("ABC".chars().collect()).unwrap();
    let base3b = BaseCustom::<char>::new("ABC".chars().collect()).unwrap();
    assert_eq!(base3a == base3b, true);

    let base3e = BaseCustom::<char>::new("ABC".chars().collect()).unwrap();
    let base3f = BaseCustom::<char>::new("BCA".chars().collect()).unwrap();
    assert_eq!(base3e == base3f, false);
}

#[test]
fn it_gives_the_simple_char_from_char_mapping() {
    let base10 = BaseCustom::<char>::new("0123456789".chars().collect()).unwrap();
    assert_eq!(base10.char(9), Some('9'));
    assert_eq!(base10.char(10), None);
    assert_eq!(base10.char(11), None);
}

#[test]
fn it_can_provide_the_last_symbol_before_roll_over() {
    let base10 = BaseCustom::<char>::new("0123456789".chars().collect()).unwrap();
    assert_eq!(base10.base, 10);
    assert_eq!(base10.char((base10.base - 1) as usize), Some('9'));
}

#[test]
fn char_alphabet_zero_and_unknown_symbol() {
    let base = BaseCustom::<char>::new(vec!['é', 'ß', '字']).unwrap();
    assert_eq!(base.gen(0), "é");
    assert_eq!(base.gen(5), "ß字");
    assert_eq!(base.decimal("ß字"), Ok(5));
    assert_eq!(base.decimal("ßx"), Err(BaseError::UnknownSymbol));
}

#[test]
fn char_alphabet_round_trips() {
    let base = BaseCustom::<char>::new("qwertyuiop".chars().collect()).unwrap();
    for v in [0u64, 1, 9, 10, 11, 99999, 1 << 40, u64::MAX] {
        assert_eq!(base.decimal(&base.gen(v)), Ok(v));
    }
}

#[test]
fn char_alphabet_repeats_give_an_equal_table() {
    let with_repeats = BaseCustom::<char>::new("00011".chars().collect()).unwrap();
    let without = BaseCustom::<char>::new("01".chars().collect()).unwrap();
    assert!(with_repeats == without);
    assert_eq!(with_repeats.base, 2);
    let copy = with_repeats.clone();
    assert!(copy == without);
    assert_eq!(copy.gen(340), without.gen(340));
}
