use bcs::from_bytes::{Deserializer, MapDeserializer, SeqDeserializer};
use bcs::{from_bytes, Error, Shape, Value, MAX_CONTAINER_DEPTH, MAX_SEQUENCE_LENGTH};

fn named(name: &'static str, inner: Shape) -> Shape {
    Shape::NewtypeStruct(name, Box::new(inner))
}

fn map_of(key: Shape, value: Shape) -> Shape {
    Shape::Mapping(Box::new((key, value)))
}

#[test]
fn constants_have_their_values() {
    assert_eq!(MAX_SEQUENCE_LENGTH, (1 << 31) - 1);
    assert_eq!(MAX_CONTAINER_DEPTH, 500);
}

#[test]
fn socket_address_decodes() {
    let bytes = vec![0x7f, 0x00, 0x00, 0x01, 0x41, 0x1f];
    let ip = named("Ip", Shape::Tuple(vec![Shape::U8, Shape::U8, Shape::U8, Shape::U8]));
    let port = named("Port", Shape::U16);
    let shape = Shape::Struct("SocketAddr", vec![ip, port]);
    let value = from_bytes(&bytes, &shape).unwrap();
    let expected = Value::Tuple(vec![
        Value::Tuple(vec![Value::U8(127), Value::U8(0), Value::U8(0), Value::U8(1)]),
        Value::U16(8001),
    ]);
    assert_eq!(value, expected);
}

#[test]
fn socket_address_leaves_nothing_behind() {
    let bytes = vec![0x7f, 0x00, 0x00, 0x01, 0x41, 0x1f];
    let mut de = Deserializer::new(&bytes, MAX_CONTAINER_DEPTH);
    let ip = de.deserialize(&Shape::Tuple(vec![Shape::U8, Shape::U8, Shape::U8, Shape::U8]));
    assert!(ip.is_ok());
    assert_eq!(de.parse_u16(), Ok(0x1f41));
    assert_eq!(de.input().len(), 0);
    assert_eq!(de.end(), Ok(()));
}

#[test]
fn hello_decodes_as_text() {
    let bytes = [0x05, 0x68, 0x65, 0x6c, 0x6c, 0x6f];
    assert_eq!(from_bytes(&bytes, &Shape::Str), Ok(Value::Str("hello".to_string())));
    let mut de = Deserializer::new(&bytes, 1);
    assert_eq!(de.parse_string_borrowed(), Ok("hello"));
}

#[test]
fn hello_decodes_as_bytes() {
    let bytes = [0x05, 0x68, 0x65, 0x6c, 0x6c, 0x6f];
    assert_eq!(from_bytes(&bytes, &Shape::Bytes), Ok(Value::Bytes(b"hello".to_vec())));
    assert_eq!(from_bytes(&bytes, &Shape::Identifier), Ok(Value::Bytes(b"hello".to_vec())));
    let mut de = Deserializer::new(&bytes, 1);
    assert_eq!(de.parse_bytes_borrowed(), Ok(&b"hello"[..]));
}

#[test]
fn text_counts_bytes_not_characters() {
    let bytes = [0x02, 0xc3, 0xa9];
    assert_eq!(from_bytes(&bytes, &Shape::Str), Ok(Value::Str("\u{e9}".to_string())));
}

#[test]
fn text_must_be_utf8() {
    let bytes = [0x02, 0xff, 0xfe];
    assert_eq!(from_bytes(&bytes, &Shape::Str), Err(Error::Utf8));
    assert_eq!(from_bytes(&bytes, &Shape::Bytes), Ok(Value::Bytes(vec![0xff, 0xfe])));
}

#[test]
fn byte_string_shorter_than_its_prefix_ends_early() {
    assert_eq!(from_bytes(&[0x03, 0x01, 0x02], &Shape::Bytes), Err(Error::Eof));
    assert_eq!(from_bytes(&[], &Shape::Bytes), Err(Error::Eof));
}

#[test]
fn booleans_decode() {
    assert_eq!(from_bytes(&[0x00], &Shape::Bool), Ok(Value::Bool(false)));
    assert_eq!(from_bytes(&[0x01], &Shape::Bool), Ok(Value::Bool(true)));
    assert_eq!(from_bytes(&[0x02], &Shape::Bool), Err(Error::ExpectedBoolean));
    assert_eq!(from_bytes(&[0xff], &Shape::Bool), Err(Error::ExpectedBoolean));
    assert_eq!(from_bytes(&[], &Shape::Bool), Err(Error::Eof));
}

#[test]
fn unsigned_integers_are_little_endian() {
    assert_eq!(from_bytes(&[0xfe], &Shape::U8), Ok(Value::U8(0xfe)));
    assert_eq!(from_bytes(&[0x41, 0x1f], &Shape::U16), Ok(Value::U16(8001)));
    assert_eq!(from_bytes(&[0x78, 0x56, 0x34, 0x12], &Shape::U32), Ok(Value::U32(0x12345678)));
    assert_eq!(
        from_bytes(&[0xef, 0xcd, 0xab, 0x89, 0x67, 0x45, 0x23, 0x01], &Shape::U64),
        Ok(Value::U64(0x0123456789abcdef))
    );
    let wide: Vec<u8> = (1..=16).collect();
    assert_eq!(
        from_bytes(&wide, &Shape::U128),
        Ok(Value::U128(0x100f0e0d0c0b0a090807060504030201))
    );
    assert_eq!(from_bytes(&[0xff; 16], &Shape::U128), Ok(Value::U128(u128::MAX)));
}

#[test]
fn signed_integers_are_twos_complement() {
    assert_eq!(from_bytes(&[0xff], &Shape::I8), Ok(Value::I8(-1)));
    assert_eq!(from_bytes(&[0x80], &Shape::I8), Ok(Value::I8(i8::MIN)));
    assert_eq!(from_bytes(&[0x7f], &Shape::I8), Ok(Value::I8(i8::MAX)));
    assert_eq!(from_bytes(&[0xfe, 0xff], &Shape::I16), Ok(Value::I16(-2)));
    assert_eq!(from_bytes(&[0x00, 0x00, 0x00, 0x80], &Shape::I32), Ok(Value::I32(i32::MIN)));
    assert_eq!(from_bytes(&[0xff; 8], &Shape::I64), Ok(Value::I64(-1)));
    assert_eq!(from_bytes(&[0xff; 16], &Shape::I128), Ok(Value::I128(-1)));
    let mut least = [0u8; 16];
    least[15] = 0x80;
    assert_eq!(from_bytes(&least, &Shape::I128), Ok(Value::I128(i128::MIN)));
    let mut most = [0xffu8; 16];
    most[15] = 0x7f;
    assert_eq!(from_bytes(&most, &Shape::I128), Ok(Value::I128(i128::MAX)));
}

#[test]
fn short_input_ends_early_for_every_width() {
    assert_eq!(from_bytes(&[], &Shape::U8), Err(Error::Eof));
    assert_eq!(from_bytes(&[1], &Shape::U16), Err(Error::Eof));
    assert_eq!(from_bytes(&[1, 2, 3], &Shape::U32), Err(Error::Eof));
    assert_eq!(from_bytes(&[0; 7], &Shape::U64), Err(Error::Eof));
    assert_eq!(from_bytes(&[0; 15], &Shape::U128), Err(Error::Eof));
    assert_eq!(from_bytes(&[0; 15], &Shape::I128), Err(Error::Eof));
}

#[test]
fn variable_length_integers_decode() {
    let mut de = Deserializer::new(&[0x00], 1);
    assert_eq!(de.parse_u32_from_uleb128(), Ok(0));
    let mut de = Deserializer::new(&[0x7f], 1);
    assert_eq!(de.parse_u32_from_uleb128(), Ok(127));
    let mut de = Deserializer::new(&[0x80, 0x01], 1);
    assert_eq!(de.parse_u32_from_uleb128(), Ok(128));
    let mut de = Deserializer::new(&[0xe5, 0x8e, 0x26, 0xaa], 1);
    assert_eq!(de.parse_u32_from_uleb128(), Ok(624485));
    assert_eq!(de.input(), &[0xaa]);
    let mut de = Deserializer::new(&[0xff, 0xff, 0xff, 0xff, 0x0f], 1);
    assert_eq!(de.parse_u32_from_uleb128(), Ok(u32::MAX));
}

#[test]
fn variable_length_integers_must_be_canonical() {
    let mut de = Deserializer::new(&[0x80, 0x00], 1);
    assert_eq!(de.parse_u32_from_uleb128(), Err(Error::NonCanonicalUleb128Encoding));
    let mut de = Deserializer::new(&[0xff, 0x80, 0x00], 1);
    assert_eq!(de.parse_u32_from_uleb128(), Err(Error::NonCanonicalUleb128Encoding));
}

#[test]
fn variable_length_integers_must_fit() {
    let mut de = Deserializer::new(&[0xff, 0xff, 0xff, 0xff, 0x10], 1);
    assert_eq!(de.parse_u32_from_uleb128(), Err(Error::IntegerOverflowDuringUleb128Decoding));
    let mut de = Deserializer::new(&[0x80, 0x80, 0x80, 0x80, 0x80, 0x01], 1);
    assert_eq!(de.parse_u32_from_uleb128(), Err(Error::IntegerOverflowDuringUleb128Decoding));
}

#[test]
fn variable_length_integers_end_early() {
    let mut de = Deserializer::new(&[], 1);
    assert_eq!(de.parse_u32_from_uleb128(), Err(Error::Eof));
    let mut de = Deserializer::new(&[0x80, 0x80], 1);
    assert_eq!(de.parse_u32_from_uleb128(), Err(Error::Eof));
}

#[test]
fn lengths_have_a_cap() {
    let mut de = Deserializer::new(&[0xff, 0xff, 0xff, 0xff, 0x07], 1);
    assert_eq!(de.parse_length(), Ok(MAX_SEQUENCE_LENGTH));
    let mut de = Deserializer::new(&[0x80, 0x80, 0x80, 0x80, 0x08], 1);
    assert_eq!(de.parse_length(), Err(Error::ExceededMaxLen(MAX_SEQUENCE_LENGTH + 1)));
}

#[test]
fn options_decode() {
    let shape = Shape::Optional(Box::new(Shape::U16));
    assert_eq!(from_bytes(&[0x00], &shape), Ok(Value::Optional(None)));
    assert_eq!(
        from_bytes(&[0x01, 0x02, 0x03], &shape),
        Ok(Value::Optional(Some(Box::new(Value::U16(0x0302)))))
    );
    assert_eq!(from_bytes(&[0x02], &shape), Err(Error::ExpectedOption));
    assert_eq!(from_bytes(&[], &shape), Err(Error::Eof));
    assert_eq!(from_bytes(&[0x01, 0x02], &shape), Err(Error::Eof));
}

#[test]
fn absent_option_takes_one_byte() {
    let bytes = [0x00, 0x09];
    let mut de = Deserializer::new(&bytes, 1);
    let value = de.deserialize_option(&Shape::U64);
    assert_eq!(value, Ok(Value::Optional(None)));
    assert_eq!(de.input(), &[0x09]);
}

#[test]
fn units_take_no_bytes() {
    assert_eq!(from_bytes(&[], &Shape::Unit), Ok(Value::Unit));
    assert_eq!(from_bytes(&[], &Shape::UnitStruct("Marker")), Ok(Value::Unit));
    assert_eq!(from_bytes(&[], &Shape::Tuple(vec![])), Ok(Value::Tuple(vec![])));
    assert_eq!(from_bytes(&[], &Shape::Struct("Empty", vec![])), Ok(Value::Tuple(vec![])));
}

#[test]
fn leftover_bytes_are_refused() {
    assert_eq!(from_bytes(&[0x01, 0x00], &Shape::Bool), Err(Error::RemainingInput));
    assert_eq!(from_bytes(&[0x00], &Shape::Unit), Err(Error::RemainingInput));
}

#[test]
fn sequences_decode() {
    let shape = Shape::Sequence(Box::new(Shape::U16));
    assert_eq!(from_bytes(&[0x00], &shape), Ok(Value::Sequence(vec![])));
    assert_eq!(
        from_bytes(&[0x02, 0x01, 0x00, 0x02, 0x00], &shape),
        Ok(Value::Sequence(vec![Value::U16(1), Value::U16(2)]))
    );
    assert_eq!(from_bytes(&[0x02, 0x01, 0x00, 0x02], &shape), Err(Error::Eof));
    assert_eq!(from_bytes(&[0x80, 0x00], &shape), Err(Error::NonCanonicalUleb128Encoding));
}

#[test]
fn sequences_of_sequences_decode() {
    let shape = Shape::Sequence(Box::new(Shape::Sequence(Box::new(Shape::Bool))));
    assert_eq!(
        from_bytes(&[0x02, 0x01, 0x01, 0x02, 0x00, 0x01], &shape),
        Ok(Value::Sequence(vec![
            Value::Sequence(vec![Value::Bool(true)]),
            Value::Sequence(vec![Value::Bool(false), Value::Bool(true)]),
        ]))
    );
}

#[test]
fn tuple_structs_decode_their_fields_in_order() {
    let shape = Shape::TupleStruct("Pair", vec![Shape::Bool, Shape::U32]);
    assert_eq!(
        from_bytes(&[0x01, 0x2a, 0x00, 0x00, 0x00], &shape),
        Ok(Value::Tuple(vec![Value::Bool(true), Value::U32(42)]))
    );
    assert_eq!(from_bytes(&[0x03, 0x2a, 0x00, 0x00, 0x00], &shape), Err(Error::ExpectedBoolean));
}

#[test]
fn map_with_ascending_keys_decodes() {
    let shape = map_of(Shape::U8, Shape::U8);
    assert_eq!(
        from_bytes(&[0x02, 0x01, 0x0a, 0x02, 0x0b], &shape),
        Ok(Value::Mapping(vec![
            (Value::U8(1), Value::U8(10)),
            (Value::U8(2), Value::U8(11)),
        ]))
    );
    assert_eq!(from_bytes(&[0x00], &shape), Ok(Value::Mapping(vec![])));
}

#[test]
fn map_with_equal_keys_is_refused() {
    let shape = map_of(Shape::U8, Shape::U8);
    assert_eq!(from_bytes(&[0x02, 0x01, 0x0a, 0x01, 0x0b], &shape), Err(Error::NonCanonicalMap));
}

#[test]
fn map_with_descending_keys_is_refused() {
    let shape = map_of(Shape::U8, Shape::U8);
    assert_eq!(from_bytes(&[0x02, 0x02, 0x0a, 0x01, 0x0b], &shape), Err(Error::NonCanonicalMap));
}

#[test]
fn map_keys_are_ordered_by_their_bytes() {
    // As numbers 256 comes after 1; as little-endian bytes [0, 1] comes before [1, 0].
    let shape = map_of(Shape::U16, Shape::Unit);
    assert_eq!(
        from_bytes(&[0x02, 0x00, 0x01, 0x01, 0x00], &shape),
        Ok(Value::Mapping(vec![(Value::U16(256), Value::Unit), (Value::U16(1), Value::Unit)]))
    );
    assert_eq!(from_bytes(&[0x02, 0x01, 0x00, 0x00, 0x01], &shape), Err(Error::NonCanonicalMap));
}

#[test]
fn map_key_that_is_a_prefix_comes_first() {
    let shape = map_of(Shape::Bytes, Shape::Unit);
    assert_eq!(
        from_bytes(&[0x02, 0x00, 0x01, 0x00], &shape),
        Ok(Value::Mapping(vec![
            (Value::Bytes(vec![]), Value::Unit),
            (Value::Bytes(vec![0]), Value::Unit),
        ]))
    );
    assert_eq!(from_bytes(&[0x02, 0x01, 0x00, 0x00], &shape), Err(Error::NonCanonicalMap));
    assert_eq!(
        from_bytes(&[0x02, 0x01, 0x05, 0x01, 0x06], &shape),
        Ok(Value::Mapping(vec![
            (Value::Bytes(vec![5]), Value::Unit),
            (Value::Bytes(vec![6]), Value::Unit),
        ]))
    );
    let unit_keys = map_of(Shape::Unit, Shape::U8);
    assert_eq!(from_bytes(&[0x02, 0x01, 0x02], &unit_keys), Err(Error::NonCanonicalMap));
}

#[test]
fn map_order_is_checked_before_the_value_is_read() {
    let shape = map_of(Shape::U8, Shape::Bool);
    assert_eq!(from_bytes(&[0x02, 0x02, 0x01, 0x01, 0x07], &shape), Err(Error::NonCanonicalMap));
    assert_eq!(from_bytes(&[0x02, 0x01, 0x01, 0x02, 0x07], &shape), Err(Error::ExpectedBoolean));
}

#[test]
fn enums_decode() {
    let shape = Shape::Enum(
        "Choice",
        vec![Shape::Unit, Shape::U16, Shape::Tuple(vec![Shape::Bool, Shape::U8])],
    );
    assert_eq!(from_bytes(&[0x00], &shape), Ok(Value::Variant(0, Box::new(Value::Unit))));
    assert_eq!(
        from_bytes(&[0x01, 0x34, 0x12], &shape),
        Ok(Value::Variant(1, Box::new(Value::U16(0x1234))))
    );
    assert_eq!(
        from_bytes(&[0x02, 0x01, 0x09], &shape),
        Ok(Value::Variant(2, Box::new(Value::Tuple(vec![Value::Bool(true), Value::U8(9)]))))
    );
    assert_eq!(from_bytes(&[], &shape), Err(Error::Eof));
    assert_eq!(from_bytes(&[0x80, 0x00], &shape), Err(Error::NonCanonicalUleb128Encoding));
}

#[test]
fn unknown_variant_cannot_be_built() {
    let shape = Shape::Enum("Choice", vec![Shape::Unit, Shape::U16]);
    assert_eq!(
        from_bytes(&[0x05], &shape),
        Err(Error::Custom(
            "invalid value: integer `5`, expected variant index 0 <= i < 2".to_string()
        ))
    );
    assert_eq!(
        from_bytes(&[0x80, 0x01], &shape),
        Err(Error::Custom(
            "invalid value: integer `128`, expected variant index 0 <= i < 2".to_string()
        ))
    );
}

#[test]
fn shapes_without_an_encoding_are_refused() {
    assert_eq!(from_bytes(&[0; 4], &Shape::Any), Err(Error::NotSupported("deserialize_any")));
    assert_eq!(
        from_bytes(&[0; 4], &Shape::IgnoredAny),
        Err(Error::NotSupported("deserialize_ignored_any"))
    );
    assert_eq!(from_bytes(&[0; 4], &Shape::F32), Err(Error::NotSupported("deserialize_f32")));
    assert_eq!(from_bytes(&[0; 8], &Shape::F64), Err(Error::NotSupported("deserialize_f64")));
    assert_eq!(from_bytes(&[0; 4], &Shape::Char), Err(Error::NotSupported("deserialize_char")));
}

#[test]
fn three_named_structs_exceed_a_depth_of_two() {
    let shape = named("A", named("B", named("C", Shape::U8)));
    let mut de = Deserializer::new(&[0x07], 2);
    assert_eq!(de.deserialize(&shape), Err(Error::ExceededContainerDepthLimit("C")));
    assert_eq!(de.max_remaining_depth(), 2);
}

#[test]
fn two_named_structs_fit_a_depth_of_two() {
    let shape = named("A", named("B", Shape::U8));
    let mut de = Deserializer::new(&[0x07], 2);
    assert_eq!(de.deserialize(&shape), Ok(Value::U8(7)));
    assert_eq!(de.max_remaining_depth(), 2);
    assert_eq!(de.end(), Ok(()));
}

#[test]
fn every_named_container_costs_depth() {
    let mut de = Deserializer::new(&[0x00], 0);
    assert_eq!(
        de.deserialize(&Shape::UnitStruct("U")),
        Err(Error::ExceededContainerDepthLimit("U"))
    );
    assert_eq!(
        de.deserialize(&Shape::TupleStruct("T", vec![])),
        Err(Error::ExceededContainerDepthLimit("T"))
    );
    assert_eq!(
        de.deserialize(&Shape::Struct("S", vec![])),
        Err(Error::ExceededContainerDepthLimit("S"))
    );
    assert_eq!(
        de.deserialize(&Shape::Enum("E", vec![Shape::Unit])),
        Err(Error::ExceededContainerDepthLimit("E"))
    );
    assert_eq!(de.deserialize(&named("N", Shape::Unit)), Err(Error::ExceededContainerDepthLimit("N")));
    assert_eq!(de.input(), &[0x00]);
}

#[test]
fn unnamed_containers_cost_no_depth() {
    let shape = Shape::Sequence(Box::new(Shape::Tuple(vec![
        Shape::Optional(Box::new(Shape::U8)),
        map_of(Shape::U8, Shape::Unit),
    ])));
    let mut de = Deserializer::new(&[0x01, 0x01, 0x05, 0x01, 0x09], 0);
    assert_eq!(
        de.deserialize(&shape),
        Ok(Value::Sequence(vec![Value::Tuple(vec![
            Value::Optional(Some(Box::new(Value::U8(5)))),
            Value::Mapping(vec![(Value::U8(9), Value::Unit)]),
        ])]))
    );
}

#[test]
fn siblings_do_not_use_up_the_depth() {
    let fields: Vec<Shape> = (0..50).map(|_| named("Leaf", Shape::U8)).collect();
    let shape = Shape::Tuple(fields);
    let bytes = [3u8; 50];
    let mut de = Deserializer::new(&bytes, 1);
    let value = de.deserialize(&shape).unwrap();
    assert_eq!(value, Value::Tuple((0..50).map(|_| Value::U8(3)).collect()));
    assert_eq!(de.max_remaining_depth(), 1);
}

#[test]
fn depth_comes_back_after_a_failure() {
    let shape = named("A", named("B", Shape::Bool));
    let mut de = Deserializer::new(&[0x09], 5);
    assert_eq!(de.deserialize(&shape), Err(Error::ExpectedBoolean));
    assert_eq!(de.max_remaining_depth(), 5);
}

#[test]
fn entering_and_leaving_balance() {
    let mut de = Deserializer::new(&[], 1);
    assert_eq!(de.enter_named_container("A"), Ok(()));
    assert_eq!(de.max_remaining_depth(), 0);
    assert_eq!(de.enter_named_container("B"), Err(Error::ExceededContainerDepthLimit("B")));
    assert_eq!(de.max_remaining_depth(), 0);
    de.leave_named_container();
    assert_eq!(de.max_remaining_depth(), 1);
}

#[test]
fn default_depth_allows_five_hundred_levels() {
    let mut fits = Shape::U8;
    for _ in 0..500 {
        fits = named("Level", fits);
    }
    assert_eq!(from_bytes(&[0x01], &fits), Ok(Value::U8(1)));
    let too_deep = named("Level", fits);
    assert_eq!(from_bytes(&[0x01], &too_deep), Err(Error::ExceededContainerDepthLimit("Level")));
}

#[test]
fn peek_next_and_take_walk_the_input() {
    let bytes = [1u8, 2, 3, 4];
    let mut de = Deserializer::new(&bytes, 1);
    assert_eq!(de.peek(), Ok(1));
    assert_eq!(de.next(), Ok(1));
    assert_eq!(de.take(2), Ok(&[2u8, 3][..]));
    assert_eq!(de.take(2), Err(Error::Eof));
    assert_eq!(de.input(), &[4]);
    assert_eq!(de.end(), Err(Error::RemainingInput));
    assert_eq!(de.next(), Ok(4));
    assert_eq!(de.peek(), Err(Error::Eof));
    assert_eq!(de.next(), Err(Error::Eof));
    assert_eq!(de.end(), Ok(()));
    assert!(!de.is_human_readable());
}

#[test]
fn fill_slice_copies_the_next_bytes() {
    let bytes = [1u8, 2, 3];
    let mut de = Deserializer::new(&bytes, 1);
    let mut two = [0u8; 2];
    assert_eq!(de.fill_slice(&mut two), Ok(()));
    assert_eq!(two, [1, 2]);
    assert_eq!(de.fill_slice(&mut two), Err(Error::Eof));
    assert_eq!(two, [3, 2]);
    assert_eq!(de.input(), &[0u8; 0]);
}

#[test]
fn sequence_counter_hands_out_its_elements() {
    let bytes = [7u8, 8];
    let mut de = Deserializer::new(&bytes, 1);
    let mut seq = SeqDeserializer::new(2);
    assert_eq!(seq.size_hint(), Some(2));
    assert_eq!(seq.next_element(&mut de, &Shape::U8), Ok(Some(Value::U8(7))));
    assert_eq!(seq.size_hint(), Some(1));
    assert_eq!(seq.next_element(&mut de, &Shape::U8), Ok(Some(Value::U8(8))));
    assert_eq!(seq.next_element(&mut de, &Shape::U8), Ok(None));
    assert!(!seq.begin_element());
}

#[test]
fn map_counter_checks_each_key() {
    let bytes = [1u8, 10, 1, 11];
    let mut de = Deserializer::new(&bytes, 1);
    let mut map = MapDeserializer::new(2);
    assert_eq!(map.size_hint(), Some(2));
    assert_eq!(map.next_key(&mut de, &Shape::U8), Ok(Some(Value::U8(1))));
    assert_eq!(map.next_value(&mut de, &Shape::U8), Ok(Value::U8(10)));
    assert_eq!(map.size_hint(), Some(1));
    assert_eq!(map.next_key(&mut de, &Shape::U8), Err(Error::NonCanonicalMap));
    assert_eq!(map.size_hint(), Some(1));
}

#[test]
fn map_counter_brackets_a_key() {
    let bytes = [1u8, 2, 3];
    let mut de = Deserializer::new(&bytes, 1);
    let mut map = MapDeserializer::new(2);
    let start = map.begin_key(&de).unwrap();
    assert_eq!(map.size_hint(), Some(2));
    assert_eq!(de.parse_u16(), Ok(0x0201));
    assert_eq!(map.size_hint(), Some(2));
    assert_eq!(map.end_key(&de, start), Ok(()));
    assert_eq!(map.size_hint(), Some(1));
    let start = map.begin_key(&de).unwrap();
    assert_eq!(de.parse_u8(), Ok(3));
    assert_eq!(map.end_key(&de, start), Ok(()));
    assert_eq!(map.size_hint(), Some(0));
    assert!(map.begin_key(&de).is_none());
    assert_eq!(map.next_key(&mut de, &Shape::U8), Ok(None));
}

#[test]
fn refused_key_leaves_the_count_and_the_key_before_it() {
    let bytes = [5u8, 10, 3, 4, 6, 7];
    let mut de = Deserializer::new(&bytes, 1);
    let mut map = MapDeserializer::new(2);
    assert_eq!(map.next_key(&mut de, &Shape::U8), Ok(Some(Value::U8(5))));
    assert_eq!(map.next_value(&mut de, &Shape::U8), Ok(Value::U8(10)));
    assert_eq!(map.size_hint(), Some(1));
    // 3 does not come after 5: it is consumed and refused.
    assert_eq!(map.next_key(&mut de, &Shape::U8), Err(Error::NonCanonicalMap));
    assert_eq!(map.size_hint(), Some(1));
    assert_eq!(de.input(), &[4u8, 6, 7]);
    // 4 comes after 3, but the key before it is still 5.
    assert_eq!(map.next_key(&mut de, &Shape::U8), Err(Error::NonCanonicalMap));
    assert_eq!(map.size_hint(), Some(1));
    assert_eq!(map.next_key(&mut de, &Shape::U8), Ok(Some(Value::U8(6))));
    assert_eq!(map.size_hint(), Some(0));
    assert_eq!(map.next_key(&mut de, &Shape::U8), Ok(None));
    assert_eq!(de.input(), &[7u8]);
}

#[test]
fn key_that_fails_leaves_the_count_and_the_key_before_it() {
    let bytes = [5u8, 10, 2, 6];
    let mut de = Deserializer::new(&bytes, 1);
    let mut map = MapDeserializer::new(3);
    assert_eq!(map.next_key(&mut de, &Shape::U8), Ok(Some(Value::U8(5))));
    assert_eq!(map.next_value(&mut de, &Shape::U8), Ok(Value::U8(10)));
    assert_eq!(map.next_key(&mut de, &Shape::Bool), Err(Error::ExpectedBoolean));
    assert_eq!(map.size_hint(), Some(2));
    assert_eq!(de.input(), &[6u8]);
    assert_eq!(map.next_key(&mut de, &Shape::U8), Ok(Some(Value::U8(6))));
    assert_eq!(map.size_hint(), Some(1));
}

#[test]
fn refused_truth_value_is_consumed() {
    let bytes = [2u8, 9];
    let mut de = Deserializer::new(&bytes, 1);
    assert_eq!(de.parse_bool(), Err(Error::ExpectedBoolean));
    assert_eq!(de.input(), &[9u8]);
    let mut de = Deserializer::new(&[], 1);
    assert_eq!(de.parse_bool(), Err(Error::Eof));
    assert_eq!(de.input(), &[0u8; 0]);
}

#[test]
fn variable_length_integer_that_fails_is_consumed() {
    let bytes = [0x80u8, 0x80, 0x80, 0x80, 0x80, 0x01];
    let mut de = Deserializer::new(&bytes, 8);
    assert_eq!(de.parse_u32_from_uleb128(), Err(Error::IntegerOverflowDuringUleb128Decoding));
    assert_eq!(de.input(), &[0x01u8]);
    let bytes = [0x80u8, 0x80, 0x80, 0x80, 0x10, 0x07];
    let mut de = Deserializer::new(&bytes, 8);
    assert_eq!(de.parse_u32_from_uleb128(), Err(Error::IntegerOverflowDuringUleb128Decoding));
    assert_eq!(de.input(), &[0x07u8]);
    let bytes = [0x80u8, 0x00, 0x07];
    let mut de = Deserializer::new(&bytes, 8);
    assert_eq!(de.parse_u32_from_uleb128(), Err(Error::NonCanonicalUleb128Encoding));
    assert_eq!(de.input(), &[0x07u8]);
    let bytes = [0x80u8, 0x80];
    let mut de = Deserializer::new(&bytes, 8);
    assert_eq!(de.parse_u32_from_uleb128(), Err(Error::Eof));
    assert_eq!(de.input(), &[0u8; 0]);
    let bytes = [0xacu8, 0x02, 0x07];
    let mut de = Deserializer::new(&bytes, 8);
    assert_eq!(de.parse_u32_from_uleb128(), Ok(300));
    assert_eq!(de.input(), &[0x07u8]);
}

#[test]
fn length_over_the_cap_is_consumed() {
    let bytes = [0xffu8, 0xff, 0xff, 0xff, 0x0f, 0x07];
    let mut de = Deserializer::new(&bytes, 8);
    assert_eq!(de.parse_length(), Err(Error::ExceededMaxLen(4294967295)));
    assert_eq!(de.input(), &[0x07u8]);
    let bytes = [0x80u8, 0x80, 0x80, 0x80, 0x08, 0x07];
    let mut de = Deserializer::new(&bytes, 8);
    assert_eq!(de.parse_length(), Err(Error::ExceededMaxLen(2147483648)));
    assert_eq!(de.input(), &[0x07u8]);
}

#[test]
fn short_integer_takes_what_is_left() {
    let bytes = [1u8, 2, 3];
    let mut de = Deserializer::new(&bytes, 8);
    assert_eq!(de.parse_u32(), Err(Error::Eof));
    assert_eq!(de.input(), &[0u8; 0]);
    let mut de = Deserializer::new(&bytes, 8);
    assert_eq!(de.parse_u16(), Ok(0x0201));
    assert_eq!(de.parse_u16(), Err(Error::Eof));
    assert_eq!(de.input(), &[0u8; 0]);
    let mut de = Deserializer::new(&bytes, 8);
    assert_eq!(de.parse_u64(), Err(Error::Eof));
    assert_eq!(de.input(), &[0u8; 0]);
    let mut de = Deserializer::new(&bytes, 8);
    assert_eq!(de.parse_u128(), Err(Error::Eof));
    assert_eq!(de.input(), &[0u8; 0]);
    let mut de = Deserializer::new(&bytes, 8);
    assert_eq!(de.take(4), Err(Error::Eof));
    assert_eq!(de.input(), &[1u8, 2, 3]);
}

#[test]
fn short_byte_string_keeps_its_content() {
    let bytes = [3u8, 1, 2];
    let mut de = Deserializer::new(&bytes, 8);
    assert_eq!(de.parse_bytes_borrowed(), Err(Error::Eof));
    assert_eq!(de.input(), &[1u8, 2]);
    let mut de = Deserializer::new(&bytes, 8);
    assert_eq!(de.deserialize(&Shape::Identifier), Err(Error::Eof));
    assert_eq!(de.input(), &[1u8, 2]);
    let mut de = Deserializer::new(&bytes, 8);
    assert_eq!(de.deserialize(&Shape::Bytes), Err(Error::Eof));
    assert_eq!(de.input(), &[1u8, 2]);
}

#[test]
fn bytes_that_are_no_text_are_consumed() {
    let bytes = [1u8, 0xff, 5];
    let mut de = Deserializer::new(&bytes, 8);
    assert_eq!(de.parse_string_borrowed(), Err(Error::Utf8));
    assert_eq!(de.input(), &[5u8]);
}

#[test]
fn failure_before_the_first_byte_consumes_nothing() {
    let bytes = [1u8, 2, 3];
    let mut de = Deserializer::new(&bytes, 0);
    assert_eq!(
        de.deserialize_struct("S", &vec![Shape::U8]),
        Err(Error::ExceededContainerDepthLimit("S"))
    );
    assert_eq!(de.input(), &[1u8, 2, 3]);
    assert_eq!(
        de.deserialize_enum("E", &vec![Shape::U8]),
        Err(Error::ExceededContainerDepthLimit("E"))
    );
    assert_eq!(de.input(), &[1u8, 2, 3]);
    assert_eq!(de.deserialize(&Shape::Any), Err(Error::NotSupported("deserialize_any")));
    assert_eq!(de.input(), &[1u8, 2, 3]);
    assert_eq!(de.max_remaining_depth(), 0);
}

#[test]
fn failure_inside_a_container_stops_where_the_item_stops() {
    let bytes = [2u8, 1, 2, 9];
    let mut de = Deserializer::new(&bytes, 4);
    assert_eq!(
        de.deserialize(&Shape::Sequence(Box::new(Shape::Bool))),
        Err(Error::ExpectedBoolean)
    );
    assert_eq!(de.input(), &[9u8]);
    let bytes = [1u8, 7];
    let mut de = Deserializer::new(&bytes, 4);
    assert_eq!(de.deserialize(&named("N", Shape::Optional(Box::new(Shape::U16)))), Err(Error::Eof));
    assert_eq!(de.input(), &[0u8; 0]);
    assert_eq!(de.max_remaining_depth(), 4);
    let bytes = [5u8, 1, 2];
    let mut de = Deserializer::new(&bytes, 4);
    assert!(matches!(
        de.deserialize_enum("E", &vec![Shape::U8, Shape::Unit]),
        Err(Error::Custom(_))
    ));
    assert_eq!(de.input(), &[1u8, 2]);
    let bytes = [2u8, 5, 0, 3, 8, 8];
    let mut de = Deserializer::new(&bytes, 4);
    assert_eq!(de.deserialize(&map_of(Shape::U8, Shape::Bool)), Err(Error::NonCanonicalMap));
    assert_eq!(de.input(), &[8u8, 8]);
}
