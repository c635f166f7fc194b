use bcs::{from_bytes, from_reader, Error, Shape, Value};

fn uleb128(mut n: u64, out: &mut Vec<u8>) {
    while n >= 0x80 {
        out.push((n & 0x7f) as u8 | 0x80);
        n >>= 7;
    }
    out.push(n as u8);
}

/// Writes `value` the way the format prescribes.
fn write(value: &Value, out: &mut Vec<u8>) {
    match value {
        Value::Bool(b) => out.push(*b as u8),
        Value::U8(n) => out.extend_from_slice(&n.to_le_bytes()),
        Value::U16(n) => out.extend_from_slice(&n.to_le_bytes()),
        Value::U32(n) => out.extend_from_slice(&n.to_le_bytes()),
        Value::U64(n) => out.extend_from_slice(&n.to_le_bytes()),
        Value::U128(n) => out.extend_from_slice(&n.to_le_bytes()),
        Value::I8(n) => out.extend_from_slice(&n.to_le_bytes()),
        Value::I16(n) => out.extend_from_slice(&n.to_le_bytes()),
        Value::I32(n) => out.extend_from_slice(&n.to_le_bytes()),
        Value::I64(n) => out.extend_from_slice(&n.to_le_bytes()),
        Value::I128(n) => out.extend_from_slice(&n.to_le_bytes()),
        Value::Str(text) => {
            uleb128(text.len() as u64, out);
            out.extend_from_slice(text.as_bytes());
        }
        Value::Bytes(bytes) => {
            uleb128(bytes.len() as u64, out);
            out.extend_from_slice(bytes);
        }
        Value::Optional(None) => out.push(0),
        Value::Optional(Some(inner)) => {
            out.push(1);
            write(inner, out);
        }
        Value::Unit => {}
        Value::Sequence(items) => {
            uleb128(items.len() as u64, out);
            for item in items {
                write(item, out);
            }
        }
        Value::Tuple(items) => {
            for item in items {
                write(item, out);
            }
        }
        Value::Mapping(pairs) => {
            uleb128(pairs.len() as u64, out);
            for (key, value) in pairs {
                write(key, out);
                write(value, out);
            }
        }
        Value::Variant(index, content) => {
            uleb128(*index as u64, out);
            write(content, out);
        }
    }
}

fn samples() -> Vec<(Shape, Vec<u8>)> {
    let record = Shape::Struct(
        "Record",
        vec![
            Shape::Bool,
            Shape::I16,
            Shape::Str,
            Shape::Optional(Box::new(Shape::U64)),
            Shape::Sequence(Box::new(Shape::NewtypeStruct("Id", Box::new(Shape::U32)))),
            Shape::Mapping(Box::new((Shape::Bytes, Shape::I8))),
            Shape::Enum("Kind", vec![Shape::Unit, Shape::Tuple(vec![Shape::U8, Shape::U128])]),
        ],
    );
    let mut record_bytes = vec![0x01, 0xfe, 0xff, 0x03, 0x61, 0xc3, 0xa9];
    record_bytes.extend_from_slice(&[0x01, 1, 2, 3, 4, 5, 6, 7, 8]);
    record_bytes.extend_from_slice(&[0x02, 0x2a, 0, 0, 0, 0xff, 0xff, 0xff, 0xff]);
    record_bytes.extend_from_slice(&[0x02, 0x00, 0x80, 0x02, 0x09, 0x09, 0x7f]);
    record_bytes.push(0x01);
    record_bytes.push(0x07);
    record_bytes.extend_from_slice(&[0x11; 16]);
    let mut long = vec![0x80, 0x01];
    long.extend_from_slice(&[0x5a; 128]);
    vec![
        (Shape::Unit, vec![]),
        (Shape::Bool, vec![0x01]),
        (Shape::U16, vec![0x41, 0x1f]),
        (Shape::I64, vec![0x00, 0x00, 0x00, 0x00, 0x00, 0x00, 0x00, 0x80]),
        (Shape::I128, vec![0xff; 16]),
        (Shape::Str, vec![0x05, 0x68, 0x65, 0x6c, 0x6c, 0x6f]),
        (Shape::Bytes, long),
        (Shape::Optional(Box::new(Shape::Optional(Box::new(Shape::Unit)))), vec![0x01, 0x00]),
        (Shape::Sequence(Box::new(Shape::Sequence(Box::new(Shape::U8)))), vec![0x02, 0x00, 0x01, 0x09]),
        (record, record_bytes),
    ]
}

#[test]
fn what_was_decoded_is_written_as_the_input() {
    for (shape, bytes) in samples() {
        let value = from_bytes(&bytes, &shape).unwrap();
        let mut written = Vec::new();
        write(&value, &mut written);
        assert_eq!(written, bytes);
    }
}

#[test]
fn both_decoders_build_the_same_value() {
    for (shape, bytes) in samples() {
        let from_buffer = from_bytes(&bytes, &shape);
        let mut source: &[u8] = &bytes;
        let from_source = from_reader(&mut source, &shape);
        assert_eq!(from_source, from_buffer);
        assert!(source.is_empty());
    }
}

#[test]
fn reader_stops_behind_the_value() {
    for (shape, bytes) in samples() {
        let mut longer = bytes.clone();
        longer.extend_from_slice(&[0xde, 0xad]);
        let mut source: &[u8] = &longer;
        assert_eq!(from_reader(&mut source, &shape), from_bytes(&bytes, &shape));
        assert_eq!(source, &[0xde, 0xad]);
        assert_eq!(from_bytes(&longer, &shape), Err(Error::RemainingInput));
    }
}

#[test]
fn every_cut_of_a_value_ends_early() {
    for (shape, bytes) in samples() {
        for n in 0..bytes.len() {
            assert_eq!(from_bytes(&bytes[..n], &shape), Err(Error::Eof));
            let mut source: &[u8] = &bytes[..n];
            assert_eq!(from_reader(&mut source, &shape), Err(Error::Eof));
        }
    }
}

#[test]
fn redundant_encodings_are_refused() {
    assert_eq!(from_bytes(&[0x80, 0x00], &Shape::Bytes), Err(Error::NonCanonicalUleb128Encoding));
    assert_eq!(
        from_bytes(&[0x81, 0x00, 0x61], &Shape::Str),
        Err(Error::NonCanonicalUleb128Encoding)
    );
    assert_eq!(
        from_bytes(&[0x80, 0x00], &Shape::Enum("E", vec![Shape::Unit])),
        Err(Error::NonCanonicalUleb128Encoding)
    );
    assert_eq!(from_bytes(&[0x02], &Shape::Optional(Box::new(Shape::Unit))), Err(Error::ExpectedOption));
    assert_eq!(from_bytes(&[0x02], &Shape::Bool), Err(Error::ExpectedBoolean));
}

#[test]
fn every_small_integer_has_one_encoding() {
    for n in 0u32..20000 {
        let mut bytes = Vec::new();
        uleb128(n as u64, &mut bytes);
        assert_eq!(bcs::codec::decode_uleb128(&bytes), Ok((n, bytes.len())));
        let mut padded = bytes.clone();
        let last = padded.len() - 1;
        padded[last] |= 0x80;
        padded.push(0x00);
        assert_eq!(
            bcs::codec::decode_uleb128(&padded),
            Err(Error::NonCanonicalUleb128Encoding)
        );
    }
    for n in [u32::MAX, u32::MAX - 1, 1 << 28, (1 << 28) - 1, 1 << 21, 1 << 14, 1 << 7] {
        let mut bytes = Vec::new();
        uleb128(n as u64, &mut bytes);
        assert_eq!(bcs::codec::decode_uleb128(&bytes), Ok((n, bytes.len())));
    }
}
