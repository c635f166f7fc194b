use bcs::codec::{
    bool_from_byte, check_key_order, check_length, decode_uleb128, i128_from_u128, i16_from_u16,
    i32_from_u32, i64_from_u64, i8_from_u8, le_bytes_value, lex_less, option_tag_from_byte,
    text_from_bytes, u128_from_le_bytes, u16_from_le_bytes, u32_from_le_bytes, u64_from_le_bytes,
    unknown_variant,
};
use bcs::Error;

#[test]
fn truth_values_are_zero_and_one() {
    assert_eq!(bool_from_byte(0), Ok(false));
    assert_eq!(bool_from_byte(1), Ok(true));
    assert_eq!(bool_from_byte(2), Err(Error::ExpectedBoolean));
}

#[test]
fn presence_tags_are_zero_and_one() {
    assert_eq!(option_tag_from_byte(0), Ok(false));
    assert_eq!(option_tag_from_byte(1), Ok(true));
    assert_eq!(option_tag_from_byte(255), Err(Error::ExpectedOption));
}

#[test]
fn little_endian_values_are_exact() {
    assert_eq!(le_bytes_value(&[]), 0);
    assert_eq!(le_bytes_value(&[0x01, 0x02, 0x03]), 0x030201);
    assert_eq!(u16_from_le_bytes(&[0x41, 0x1f]), 0x1f41);
    assert_eq!(u32_from_le_bytes(&[1, 0, 0, 0]), 1);
    assert_eq!(u32_from_le_bytes(&[0, 0, 0, 1]), 1 << 24);
    assert_eq!(u64_from_le_bytes(&[0xff; 8]), u64::MAX);
    assert_eq!(u128_from_le_bytes(&[0xff; 16]), u128::MAX);
}

#[test]
fn bit_patterns_are_reread_as_signed() {
    assert_eq!(i8_from_u8(0x7f), 127);
    assert_eq!(i8_from_u8(0x80), -128);
    assert_eq!(i16_from_u16(0xffff), -1);
    assert_eq!(i32_from_u32(0x8000_0001), -0x7fff_ffff);
    assert_eq!(i64_from_u64(u64::MAX - 1), -2);
    assert_eq!(i128_from_u128(u128::MAX), -1);
    assert_eq!(i128_from_u128(1 << 127), i128::MIN);
    assert_eq!(i128_from_u128(5), 5);
}

#[test]
fn variable_length_integer_says_what_it_took() {
    assert_eq!(decode_uleb128(&[0x00, 0x55]), Ok((0, 1)));
    assert_eq!(decode_uleb128(&[0xac, 0x02, 0x55]), Ok((300, 2)));
    assert_eq!(decode_uleb128(&[0x80, 0x80, 0x80, 0x80, 0x01]), Ok((1 << 28, 5)));
    assert_eq!(decode_uleb128(&[0x80, 0x00]), Err(Error::NonCanonicalUleb128Encoding));
    assert_eq!(
        decode_uleb128(&[0x80, 0x80, 0x80, 0x80, 0x10]),
        Err(Error::IntegerOverflowDuringUleb128Decoding)
    );
    assert_eq!(
        decode_uleb128(&[0x80, 0x80, 0x80, 0x80, 0x80]),
        Err(Error::IntegerOverflowDuringUleb128Decoding)
    );
    assert_eq!(decode_uleb128(&[0x80, 0x80, 0x80, 0x80]), Err(Error::Eof));
}

#[test]
fn lengths_up_to_the_cap_pass() {
    assert_eq!(check_length(0), Ok(0));
    assert_eq!(check_length(0x7fff_ffff), Ok(0x7fff_ffff));
    assert_eq!(check_length(0x8000_0000), Err(Error::ExceededMaxLen(0x8000_0000)));
    assert_eq!(check_length(u32::MAX), Err(Error::ExceededMaxLen(u32::MAX as usize)));
}

#[test]
fn byte_strings_are_ordered_like_words() {
    assert!(lex_less(&[], &[0]));
    assert!(!lex_less(&[], &[]));
    assert!(!lex_less(&[0], &[]));
    assert!(lex_less(&[1, 2], &[1, 3]));
    assert!(lex_less(&[1, 2], &[1, 2, 0]));
    assert!(!lex_less(&[1, 2, 0], &[1, 2]));
    assert!(!lex_less(&[1, 2], &[1, 2]));
    assert!(lex_less(&[1, 255], &[2]));
    assert!(!lex_less(&[2], &[1, 255]));
}

#[test]
fn first_key_is_always_accepted() {
    assert_eq!(check_key_order(None, &[]), Ok(()));
    assert_eq!(check_key_order(None, &[9]), Ok(()));
}

#[test]
fn later_keys_must_ascend() {
    assert_eq!(check_key_order(Some(&[1]), &[2]), Ok(()));
    assert_eq!(check_key_order(Some(&[1]), &[1]), Err(Error::NonCanonicalMap));
    assert_eq!(check_key_order(Some(&[2]), &[1]), Err(Error::NonCanonicalMap));
    assert_eq!(check_key_order(Some(&[]), &[]), Err(Error::NonCanonicalMap));
}

#[test]
fn text_is_checked() {
    assert_eq!(text_from_bytes(b"hello"), Ok("hello"));
    assert_eq!(text_from_bytes(&[]), Ok(""));
    assert_eq!(text_from_bytes(&[0xe2, 0x82, 0xac]), Ok("\u{20ac}"));
    assert_eq!(text_from_bytes(&[0xe2, 0x82]), Err(Error::Utf8));
    assert_eq!(text_from_bytes(&[0xc0, 0x80]), Err(Error::Utf8));
}

#[test]
fn unknown_variant_names_the_index_and_the_count() {
    assert_eq!(
        unknown_variant(7, 3),
        Error::Custom("invalid value: integer `7`, expected variant index 0 <= i < 3".to_string())
    );
    assert_ne!(unknown_variant(7, 3), unknown_variant(8, 3));
    assert_ne!(unknown_variant(7, 3), unknown_variant(7, 4));
}

#[test]
fn custom_failure_keeps_its_message() {
    assert_eq!(Error::custom("no such thing".to_string()), Error::Custom("no such thing".to_string()));
}

#[test]
fn span_of_a_variable_length_integer() {
    assert_eq!(bcs::codec::uleb128_span(&[]), 0);
    assert_eq!(bcs::codec::uleb128_span(&[0x00, 0x55]), 1);
    assert_eq!(bcs::codec::uleb128_span(&[0xac, 0x02, 0x55]), 2);
    assert_eq!(bcs::codec::uleb128_span(&[0x80, 0x00, 0x55]), 2);
    assert_eq!(bcs::codec::uleb128_span(&[0x80, 0x80]), 2);
    assert_eq!(bcs::codec::uleb128_span(&[0x80, 0x80, 0x80, 0x80, 0x10, 0x01]), 5);
    assert_eq!(bcs::codec::uleb128_span(&[0x80, 0x80, 0x80, 0x80, 0x80, 0x01]), 5);
    assert_eq!(bcs::codec::uleb128_span(&[0x80, 0x80, 0x80, 0x80, 0x80, 0x80, 0x80]), 5);
}
