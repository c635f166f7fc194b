use bcs::from_reader::{error_from_io, DeserializeReader, TeeReader};
use bcs::Error;
use std::io::{Cursor, ErrorKind, Read};

/// A source that fails in a way of its own.
struct Broken;

impl Read for Broken {
    fn read(&mut self, _buf: &mut [u8]) -> std::io::Result<usize> {
        Err(std::io::Error::new(ErrorKind::PermissionDenied, "no entry"))
    }
}

/// A source that hands out one byte at a time.
struct Trickle<'a>(&'a [u8]);

impl<'a> Read for Trickle<'a> {
    fn read(&mut self, buf: &mut [u8]) -> std::io::Result<usize> {
        if self.0.is_empty() || buf.is_empty() {
            return Ok(0);
        }
        buf[0] = self.0[0];
        self.0 = &self.0[1..];
        Ok(1)
    }
}

#[test]
fn tee_reader_passes_bytes_through() {
    let mut source = Cursor::new(vec![1u8, 2, 3, 4, 5]);
    let mut tee = TeeReader::new(&mut source);
    let mut buf = [0u8; 3];
    assert_eq!(tee.read(&mut buf).unwrap(), 3);
    assert_eq!(buf, [1, 2, 3]);
    assert_eq!(tee.read(&mut buf).unwrap(), 2);
    assert_eq!(&buf[..2], &[4, 5]);
    assert_eq!(tee.read(&mut buf).unwrap(), 0);
}

#[test]
fn tee_reader_records_only_while_asked() {
    let mut source: &[u8] = &[1, 2, 3, 4, 5, 6];
    let mut tee = TeeReader::new(&mut source);
    let mut one = [0u8; 1];
    let mut two = [0u8; 2];
    tee.read_exact(&mut one).unwrap();
    assert_eq!(tee.take_capture(), None);
    assert_eq!(tee.start_capture(), None);
    tee.read_exact(&mut two).unwrap();
    assert_eq!(tee.read(&mut one).unwrap(), 1);
    assert_eq!(tee.take_capture(), Some(vec![2, 3, 4]));
    tee.read_exact(&mut two).unwrap();
    assert_eq!(two, [5, 6]);
    assert_eq!(tee.take_capture(), None);
    assert_eq!(tee.start_capture(), None);
    assert_eq!(tee.take_capture(), Some(vec![]));
}

#[test]
fn tee_reader_records_what_was_read_not_the_buffer() {
    let mut source: &[u8] = &[9];
    let mut tee = TeeReader::new(&mut source);
    assert_eq!(tee.start_capture(), None);
    let mut buf = [7u8; 4];
    assert_eq!(tee.read(&mut buf).unwrap(), 1);
    assert_eq!(tee.take_capture(), Some(vec![9]));
}

#[test]
fn tee_reader_fails_where_the_source_runs_dry() {
    let mut source: &[u8] = &[1];
    let mut tee = TeeReader::new(&mut source);
    let mut two = [0u8; 2];
    let failure = tee.read_exact(&mut two).unwrap_err();
    assert_eq!(failure.kind(), ErrorKind::UnexpectedEof);
}

#[test]
fn truncation_is_the_end_of_input() {
    let failure = std::io::Error::new(ErrorKind::UnexpectedEof, "dry");
    assert_eq!(error_from_io(failure), Error::Eof);
}

#[test]
fn other_source_failures_keep_their_message() {
    let failure = std::io::Error::new(ErrorKind::PermissionDenied, "no entry");
    assert_eq!(error_from_io(failure), Error::Io("no entry".to_string()));
}

#[test]
fn reader_surfaces_source_failures() {
    let mut source = Broken;
    let mut de = DeserializeReader::new(&mut source, 1);
    assert_eq!(de.parse_u8(), Err(Error::Io("no entry".to_string())));
    assert_eq!(de.parse_bool(), Err(Error::Io("no entry".to_string())));
}

#[test]
fn reader_decodes_booleans() {
    let mut source: &[u8] = &[0, 1, 2];
    let mut de = DeserializeReader::new(&mut source, 1);
    assert_eq!(de.parse_bool(), Ok(false));
    assert_eq!(de.parse_bool(), Ok(true));
    assert_eq!(de.parse_bool(), Err(Error::ExpectedBoolean));
    assert_eq!(de.parse_bool(), Err(Error::Eof));
}

#[test]
fn reader_decodes_integers() {
    let bytes: Vec<u8> = (1..=31).collect();
    let mut source = Trickle(&bytes);
    let mut de = DeserializeReader::new(&mut source, 1);
    assert_eq!(de.parse_u8(), Ok(1));
    assert_eq!(de.parse_u16(), Ok(0x0302));
    assert_eq!(de.parse_u32(), Ok(0x07060504));
    assert_eq!(de.parse_u64(), Ok(0x0f0e0d0c0b0a0908));
    assert_eq!(de.parse_u128(), Ok(0x1f1e1d1c1b1a19181716151413121110));
    assert_eq!(de.next(), Err(Error::Eof));
}

#[test]
fn reader_ends_early_on_short_input() {
    let mut source: &[u8] = &[1];
    let mut de = DeserializeReader::new(&mut source, 1);
    assert_eq!(de.parse_u16(), Err(Error::Eof));
    let mut source: &[u8] = &[1, 2, 3];
    let mut de = DeserializeReader::new(&mut source, 1);
    assert_eq!(de.parse_u32(), Err(Error::Eof));
    let mut source: &[u8] = &[0; 7];
    let mut de = DeserializeReader::new(&mut source, 1);
    assert_eq!(de.parse_u64(), Err(Error::Eof));
    let mut source: &[u8] = &[0; 15];
    let mut de = DeserializeReader::new(&mut source, 1);
    assert_eq!(de.parse_u128(), Err(Error::Eof));
}

#[test]
fn reader_decodes_variable_length_integers() {
    let mut source: &[u8] = &[0x00, 0xe5, 0x8e, 0x26, 0xff, 0xff, 0xff, 0xff, 0x0f, 0x2a];
    let mut de = DeserializeReader::new(&mut source, 1);
    assert_eq!(de.parse_u32_from_uleb128(), Ok(0));
    assert_eq!(de.parse_u32_from_uleb128(), Ok(624485));
    assert_eq!(de.parse_u32_from_uleb128(), Ok(u32::MAX));
    assert_eq!(de.parse_u8(), Ok(0x2a));
}

#[test]
fn reader_refuses_bad_variable_length_integers() {
    let mut source: &[u8] = &[0x80, 0x00];
    let mut de = DeserializeReader::new(&mut source, 1);
    assert_eq!(de.parse_u32_from_uleb128(), Err(Error::NonCanonicalUleb128Encoding));
    let mut source: &[u8] = &[0xff, 0xff, 0xff, 0xff, 0x10];
    let mut de = DeserializeReader::new(&mut source, 1);
    assert_eq!(de.parse_u32_from_uleb128(), Err(Error::IntegerOverflowDuringUleb128Decoding));
    let mut source: &[u8] = &[0x80, 0x80, 0x80, 0x80, 0x80, 0x01];
    let mut de = DeserializeReader::new(&mut source, 1);
    assert_eq!(de.parse_u32_from_uleb128(), Err(Error::IntegerOverflowDuringUleb128Decoding));
    assert_eq!(de.parse_u8(), Ok(0x01));
    let mut source: &[u8] = &[0x80, 0x80];
    let mut de = DeserializeReader::new(&mut source, 1);
    assert_eq!(de.parse_u32_from_uleb128(), Err(Error::Eof));
}

#[test]
fn reader_caps_lengths() {
    let mut source: &[u8] = &[0xff, 0xff, 0xff, 0xff, 0x07, 0x80, 0x80, 0x80, 0x80, 0x08];
    let mut de = DeserializeReader::new(&mut source, 1);
    assert_eq!(de.parse_length(), Ok(0x7fff_ffff));
    assert_eq!(de.parse_length(), Err(Error::ExceededMaxLen(0x8000_0000)));
}

#[test]
fn reader_decodes_byte_strings_and_text() {
    let mut source: &[u8] = &[0x02, 0xff, 0xfe, 0x05, 0x68, 0x65, 0x6c, 0x6c, 0x6f, 0x01, 0xff];
    let mut de = DeserializeReader::new(&mut source, 1);
    assert_eq!(de.parse_vec(), Ok(vec![0xff, 0xfe]));
    assert_eq!(de.parse_string(), Ok("hello".to_string()));
    assert_eq!(de.parse_string(), Err(Error::Utf8));
    assert_eq!(de.parse_vec(), Err(Error::Eof));
}

#[test]
fn reader_byte_string_shorter_than_its_prefix_ends_early() {
    let mut source: &[u8] = &[0x03, 0x01, 0x02];
    let mut de = DeserializeReader::new(&mut source, 1);
    assert_eq!(de.parse_vec(), Err(Error::Eof));
}

#[test]
fn reader_records_the_bytes_of_a_value() {
    let mut source: &[u8] = &[0x01, 0xac, 0x02, 0x07];
    let mut de = DeserializeReader::new(&mut source, 1);
    assert_eq!(de.parse_u8(), Ok(1));
    assert_eq!(de.start_capture(), None);
    assert_eq!(de.parse_u32_from_uleb128(), Ok(300));
    assert_eq!(de.take_capture(), Some(vec![0xac, 0x02]));
    assert_eq!(de.parse_u8(), Ok(7));
    assert_eq!(de.take_capture(), None);
}

#[test]
fn reader_depth_balances() {
    let mut source: &[u8] = &[];
    let mut de = DeserializeReader::new(&mut source, 1);
    assert_eq!(de.enter_named_container("A"), Ok(()));
    assert_eq!(de.enter_named_container("B"), Err(Error::ExceededContainerDepthLimit("B")));
    de.leave_named_container();
    assert_eq!(de.max_remaining_depth(), 1);
}

use bcs::from_reader::{MapDeserializer, SeqDeserializer};
use bcs::{Shape, Value};

fn wrapped(name: &'static str, inner: Shape) -> Shape {
    Shape::NewtypeStruct(name, Box::new(inner))
}

fn pairs_of(key: Shape, value: Shape) -> Shape {
    Shape::Mapping(Box::new((key, value)))
}

fn read_value(mut bytes: &[u8], shape: &Shape, depth: usize) -> (Result<Value, Error>, usize) {
    let result = {
        let mut de = DeserializeReader::new(&mut bytes, depth);
        de.deserialize(shape)
    };
    (result, bytes.len())
}

#[test]
fn reader_decodes_a_socket_address() {
    let ip = wrapped("Ip", Shape::Tuple(vec![Shape::U8, Shape::U8, Shape::U8, Shape::U8]));
    let port = wrapped("Port", Shape::U16);
    let shape = Shape::Struct("SocketAddr", vec![ip, port]);
    let (value, left) = read_value(&[0x7f, 0x00, 0x00, 0x01, 0x41, 0x1f], &shape, 500);
    let expected = Value::Tuple(vec![
        Value::Tuple(vec![Value::U8(127), Value::U8(0), Value::U8(0), Value::U8(1)]),
        Value::U16(8001),
    ]);
    assert_eq!(value, Ok(expected));
    assert_eq!(left, 0);
}

#[test]
fn reader_reads_no_further_than_the_value() {
    let (value, left) = read_value(&[0x01, 0x07, 0xaa, 0xbb], &Shape::Sequence(Box::new(Shape::U8)), 1);
    assert_eq!(value, Ok(Value::Sequence(vec![Value::U8(7)])));
    assert_eq!(left, 2);
}

#[test]
fn reader_decodes_leaves() {
    assert_eq!(read_value(&[0x01], &Shape::Bool, 0).0, Ok(Value::Bool(true)));
    assert_eq!(read_value(&[0xff], &Shape::I8, 0).0, Ok(Value::I8(-1)));
    assert_eq!(read_value(&[0xfe, 0xff], &Shape::I16, 0).0, Ok(Value::I16(-2)));
    assert_eq!(read_value(&[0, 0, 0, 0x80], &Shape::I32, 0).0, Ok(Value::I32(i32::MIN)));
    assert_eq!(read_value(&[0xff; 8], &Shape::I64, 0).0, Ok(Value::I64(-1)));
    assert_eq!(read_value(&[0xff; 16], &Shape::I128, 0).0, Ok(Value::I128(-1)));
    assert_eq!(read_value(&[0x2a, 0, 0, 0], &Shape::U32, 0).0, Ok(Value::U32(42)));
    assert_eq!(read_value(&[], &Shape::Unit, 0).0, Ok(Value::Unit));
    assert_eq!(
        read_value(&[0x02, 0x68, 0x69], &Shape::Str, 0).0,
        Ok(Value::Str("hi".to_string()))
    );
    assert_eq!(read_value(&[0x02, 0x68, 0x69], &Shape::Bytes, 0).0, Ok(Value::Bytes(vec![0x68, 0x69])));
    assert_eq!(read_value(&[0x01, 0x68], &Shape::Identifier, 0).0, Ok(Value::Bytes(vec![0x68])));
}

#[test]
fn reader_refuses_shapes_without_an_encoding() {
    assert_eq!(read_value(&[0], &Shape::Any, 1).0, Err(Error::NotSupported("deserialize_any")));
    assert_eq!(
        read_value(&[0], &Shape::IgnoredAny, 1).0,
        Err(Error::NotSupported("deserialize_ignored_any"))
    );
    assert_eq!(read_value(&[0], &Shape::F32, 1).0, Err(Error::NotSupported("deserialize_f32")));
    assert_eq!(read_value(&[0], &Shape::F64, 1).0, Err(Error::NotSupported("deserialize_f64")));
    assert_eq!(read_value(&[0], &Shape::Char, 1).0, Err(Error::NotSupported("deserialize_char")));
}

#[test]
fn reader_decodes_options() {
    let shape = Shape::Optional(Box::new(Shape::U16));
    assert_eq!(read_value(&[0x00, 0x09], &shape, 0), (Ok(Value::Optional(None)), 1));
    assert_eq!(
        read_value(&[0x01, 0x02, 0x03], &shape, 0).0,
        Ok(Value::Optional(Some(Box::new(Value::U16(0x0302)))))
    );
    assert_eq!(read_value(&[0x02], &shape, 0).0, Err(Error::ExpectedOption));
    assert_eq!(read_value(&[], &shape, 0).0, Err(Error::Eof));
}

#[test]
fn reader_accepts_ascending_map_keys() {
    let shape = pairs_of(Shape::U8, Shape::U8);
    assert_eq!(
        read_value(&[0x02, 0x01, 0x0a, 0x02, 0x0b], &shape, 0).0,
        Ok(Value::Mapping(vec![
            (Value::U8(1), Value::U8(10)),
            (Value::U8(2), Value::U8(11)),
        ]))
    );
}

#[test]
fn reader_refuses_equal_map_keys() {
    let shape = pairs_of(Shape::U8, Shape::U8);
    assert_eq!(read_value(&[0x02, 0x01, 0x0a, 0x01, 0x0b], &shape, 0).0, Err(Error::NonCanonicalMap));
}

#[test]
fn reader_refuses_descending_map_keys() {
    let shape = pairs_of(Shape::U8, Shape::U8);
    assert_eq!(read_value(&[0x02, 0x02, 0x0a, 0x01, 0x0b], &shape, 0).0, Err(Error::NonCanonicalMap));
}

#[test]
fn reader_orders_keys_by_their_bytes() {
    let shape = pairs_of(Shape::U16, Shape::Unit);
    assert_eq!(
        read_value(&[0x02, 0x00, 0x01, 0x01, 0x00], &shape, 0).0,
        Ok(Value::Mapping(vec![(Value::U16(256), Value::Unit), (Value::U16(1), Value::Unit)]))
    );
    assert_eq!(read_value(&[0x02, 0x01, 0x00, 0x00, 0x01], &shape, 0).0, Err(Error::NonCanonicalMap));
}

#[test]
fn reader_takes_maps_as_keys_of_maps() {
    // Two keys, each a map of one pair: {1: 5} and {2: 5}.
    let shape = pairs_of(pairs_of(Shape::U8, Shape::U8), Shape::Bool);
    let ascending = [0x02, 0x01, 0x01, 0x05, 0x01, 0x01, 0x02, 0x05, 0x00];
    assert_eq!(
        read_value(&ascending, &shape, 0).0,
        Ok(Value::Mapping(vec![
            (Value::Mapping(vec![(Value::U8(1), Value::U8(5))]), Value::Bool(true)),
            (Value::Mapping(vec![(Value::U8(2), Value::U8(5))]), Value::Bool(false)),
        ]))
    );
    let equal = [0x02, 0x01, 0x01, 0x05, 0x01, 0x01, 0x01, 0x05, 0x00];
    assert_eq!(read_value(&equal, &shape, 0).0, Err(Error::NonCanonicalMap));
    // The keys differ only in the value of their inner pair: {1: 5} and {1: 4}.
    let descending = [0x02, 0x01, 0x01, 0x05, 0x01, 0x01, 0x01, 0x04, 0x00];
    assert_eq!(read_value(&descending, &shape, 0).0, Err(Error::NonCanonicalMap));
    assert_eq!(bcs::from_bytes(&ascending, &shape).is_ok(), true);
    assert_eq!(bcs::from_bytes(&descending, &shape), Err(Error::NonCanonicalMap));
}

#[test]
fn reader_decodes_enums() {
    let shape = Shape::Enum("Choice", vec![Shape::Unit, Shape::U16]);
    assert_eq!(read_value(&[0x00], &shape, 1).0, Ok(Value::Variant(0, Box::new(Value::Unit))));
    assert_eq!(
        read_value(&[0x01, 0x34, 0x12], &shape, 1).0,
        Ok(Value::Variant(1, Box::new(Value::U16(0x1234))))
    );
    assert_eq!(
        read_value(&[0x02], &shape, 1).0,
        Err(Error::Custom(
            "invalid value: integer `2`, expected variant index 0 <= i < 2".to_string()
        ))
    );
    assert_eq!(read_value(&[0x00], &shape, 0).0, Err(Error::ExceededContainerDepthLimit("Choice")));
}

#[test]
fn reader_guards_the_depth() {
    let three = wrapped("A", wrapped("B", wrapped("C", Shape::U8)));
    assert_eq!(read_value(&[7], &three, 2).0, Err(Error::ExceededContainerDepthLimit("C")));
    let two = wrapped("A", wrapped("B", Shape::U8));
    assert_eq!(read_value(&[7], &two, 2).0, Ok(Value::U8(7)));
    assert_eq!(
        read_value(&[], &Shape::UnitStruct("U"), 0).0,
        Err(Error::ExceededContainerDepthLimit("U"))
    );
    assert_eq!(
        read_value(&[], &Shape::TupleStruct("T", vec![]), 0).0,
        Err(Error::ExceededContainerDepthLimit("T"))
    );
    assert_eq!(read_value(&[], &Shape::TupleStruct("T", vec![]), 1).0, Ok(Value::Tuple(vec![])));
}

#[test]
fn reader_siblings_do_not_use_up_the_depth() {
    let fields: Vec<Shape> = (0..40).map(|_| wrapped("Leaf", Shape::U8)).collect();
    let bytes = [3u8; 40];
    let mut source: &[u8] = &bytes;
    let mut de = DeserializeReader::new(&mut source, 1);
    let value = de.deserialize(&Shape::Tuple(fields)).unwrap();
    assert_eq!(value, Value::Tuple((0..40).map(|_| Value::U8(3)).collect()));
    assert_eq!(de.max_remaining_depth(), 1);
    assert!(!de.is_human_readable());
}

#[test]
fn reader_depth_comes_back_after_a_failure() {
    let mut source: &[u8] = &[0x09];
    let mut de = DeserializeReader::new(&mut source, 5);
    assert_eq!(de.deserialize(&wrapped("A", wrapped("B", Shape::Bool))), Err(Error::ExpectedBoolean));
    assert_eq!(de.max_remaining_depth(), 5);
}

#[test]
fn reader_sequence_counter_hands_out_its_elements() {
    let mut source: &[u8] = &[7, 8];
    let mut de = DeserializeReader::new(&mut source, 1);
    let mut seq = SeqDeserializer::new(2);
    assert_eq!(seq.size_hint(), Some(2));
    assert_eq!(seq.next_element(&mut de, &Shape::U8), Ok(Some(Value::U8(7))));
    assert_eq!(seq.next_element(&mut de, &Shape::U8), Ok(Some(Value::U8(8))));
    assert_eq!(seq.next_element(&mut de, &Shape::U8), Ok(None));
    assert!(!seq.begin_element());
}

#[test]
fn reader_map_counter_brackets_a_key() {
    let mut source: &[u8] = &[1, 2, 0xff, 1, 2];
    let mut de = DeserializeReader::new(&mut source, 1);
    let mut map = MapDeserializer::new(3);
    assert!(map.begin_key(&mut de));
    assert_eq!(map.size_hint(), Some(3));
    assert_eq!(de.parse_u16(), Ok(0x0201));
    assert_eq!(map.size_hint(), Some(3));
    assert_eq!(map.end_key(&mut de), Ok(()));
    assert_eq!(map.next_value(&mut de, &Shape::U8), Ok(Value::U8(0xff)));
    assert_eq!(map.size_hint(), Some(2));
    assert_eq!(map.next_key(&mut de, &Shape::U16), Err(Error::NonCanonicalMap));
    assert_eq!(map.size_hint(), Some(2));
}

#[test]
fn reader_key_recording_resumes_an_outer_recording() {
    let mut source: &[u8] = &[9, 1, 2, 7];
    let mut de = DeserializeReader::new(&mut source, 1);
    assert_eq!(de.start_capture(), None);
    assert_eq!(de.parse_u8(), Ok(9));
    let mut map = MapDeserializer::new(1);
    assert_eq!(map.next_key(&mut de, &Shape::U16), Ok(Some(Value::U16(0x0201))));
    assert_eq!(de.parse_u8(), Ok(7));
    assert_eq!(de.take_capture(), Some(vec![9, 1, 2, 7]));
    assert_eq!(map.next_key(&mut de, &Shape::U16), Ok(None));
}

use bcs::from_reader::source_failure;

/// A source that hands out its bytes and then fails in a way of its own.
struct ThenBroken<'a>(&'a [u8]);

impl<'a> Read for ThenBroken<'a> {
    fn read(&mut self, buf: &mut [u8]) -> std::io::Result<usize> {
        if self.0.is_empty() {
            return Err(std::io::Error::new(ErrorKind::PermissionDenied, "no entry"));
        }
        let n = buf.len().min(self.0.len());
        buf[..n].copy_from_slice(&self.0[..n]);
        self.0 = &self.0[n..];
        Ok(n)
    }

    fn read_exact(&mut self, buf: &mut [u8]) -> std::io::Result<()> {
        if self.0.len() < buf.len() || self.0.is_empty() {
            return Err(std::io::Error::new(ErrorKind::PermissionDenied, "no entry"));
        }
        let n = buf.len();
        buf.copy_from_slice(&self.0[..n]);
        self.0 = &self.0[n..];
        Ok(())
    }
}

#[test]
fn source_failure_tells_a_dry_source_from_a_broken_one() {
    assert_eq!(source_failure(true, "dry".to_string()), Error::Eof);
    assert_eq!(source_failure(false, "no entry".to_string()), Error::Io("no entry".to_string()));
}

#[test]
fn answers_of_the_source_are_recorded_and_passed_on() {
    let mut source: &[u8] = &[];
    let mut tee = TeeReader::new(&mut source);
    assert_eq!(tee.start_capture(), None);
    assert_eq!(tee.record_read(Ok(2), &[1, 2, 3]).unwrap(), 2);
    assert_eq!(tee.record_read(Ok(0), &[4]).unwrap(), 0);
    let failure = std::io::Error::new(ErrorKind::PermissionDenied, "no entry");
    assert_eq!(tee.record_read(Err(failure), &[5, 6]).unwrap_err().kind(), ErrorKind::PermissionDenied);
    assert!(tee.record_filled(Ok(()), &[7, 8]).is_ok());
    let failure = std::io::Error::new(ErrorKind::UnexpectedEof, "dry");
    assert_eq!(tee.record_filled(Err(failure), &[9]).unwrap_err().kind(), ErrorKind::UnexpectedEof);
    assert_eq!(tee.take_capture(), Some(vec![1, 2, 7, 8]));
}

#[test]
fn empty_buffers_ask_nothing_of_the_source() {
    let mut source = Broken;
    let mut de = DeserializeReader::new(&mut source, 1);
    let mut nothing = [0u8; 0];
    assert_eq!(de.fill_slice(&mut nothing), Ok(()));
    let mut source = ThenBroken(&[0x00]);
    let mut de = DeserializeReader::new(&mut source, 1);
    assert_eq!(de.parse_vec(), Ok(vec![]));
    assert_eq!(de.parse_vec(), Err(Error::Io("no entry".to_string())));
}

#[test]
fn values_that_need_no_bytes_need_no_source() {
    let mut source = Broken;
    let mut de = DeserializeReader::new(&mut source, 1);
    assert_eq!(de.deserialize(&Shape::Unit), Ok(Value::Unit));
    assert_eq!(de.deserialize(&Shape::UnitStruct("U")), Ok(Value::Unit));
    assert_eq!(de.deserialize(&Shape::Tuple(vec![Shape::Unit, Shape::Unit])), Ok(Value::Tuple(vec![Value::Unit, Value::Unit])));
    assert_eq!(de.deserialize(&Shape::Struct("S", vec![])), Ok(Value::Tuple(vec![])));
    assert_eq!(bcs::from_reader(&mut Broken, &Shape::Unit), Ok(Value::Unit));
    assert_eq!(bcs::from_reader(&mut Broken, &Shape::U8), Err(Error::Io("no entry".to_string())));
}

#[test]
fn a_broken_source_shows_where_the_input_would_end() {
    let shape = Shape::Tuple(vec![Shape::U8, Shape::Sequence(Box::new(Shape::U16))]);
    let bytes = [7u8, 2, 1, 0];
    assert_eq!(bcs::from_bytes(&bytes, &shape), Err(Error::Eof));
    let mut dry: &[u8] = &bytes;
    assert_eq!(bcs::from_reader(&mut dry, &shape), Err(Error::Eof));
    let mut broken = ThenBroken(&bytes);
    assert_eq!(bcs::from_reader(&mut broken, &shape), Err(Error::Io("no entry".to_string())));
}

#[test]
fn reader_fails_as_the_bytes_it_read_do() {
    let shape = Shape::Tuple(vec![
        Shape::U8,
        Shape::Mapping(Box::new((Shape::U8, Shape::Bool))),
        Shape::U8,
    ]);
    for bytes in [
        vec![7u8, 2, 1, 0, 1, 1, 9],
        vec![7u8, 2, 1, 5, 2, 1, 9],
        vec![7u8, 0x80, 0x00],
        vec![7u8, 1, 1, 1],
        vec![7u8, 0xff, 0xff, 0xff, 0xff, 0x7f],
    ] {
        let from_buffer = {
            let mut de = bcs::Deserializer::new(&bytes, 3);
            de.deserialize(&shape)
        };
        assert!(from_buffer.is_err());
        let mut source: &[u8] = &bytes;
        let from_source = {
            let mut de = DeserializeReader::new(&mut source, 3);
            de.deserialize(&shape)
        };
        assert_eq!(from_source, from_buffer);
    }
}

#[test]
fn reader_refused_key_leaves_the_count_and_the_key_before_it() {
    let mut source: &[u8] = &[5, 10, 3, 4, 6, 7];
    let mut de = DeserializeReader::new(&mut source, 1);
    let mut map = MapDeserializer::new(2);
    assert_eq!(map.next_key(&mut de, &Shape::U8), Ok(Some(Value::U8(5))));
    assert_eq!(map.next_value(&mut de, &Shape::U8), Ok(Value::U8(10)));
    assert_eq!(map.size_hint(), Some(1));
    // 3 does not come after 5.
    assert_eq!(map.next_key(&mut de, &Shape::U8), Err(Error::NonCanonicalMap));
    assert_eq!(map.size_hint(), Some(1));
    // 4 comes after 3, but the key before it is still 5.
    assert_eq!(map.next_key(&mut de, &Shape::U8), Err(Error::NonCanonicalMap));
    assert_eq!(map.size_hint(), Some(1));
    assert_eq!(map.next_key(&mut de, &Shape::U8), Ok(Some(Value::U8(6))));
    assert_eq!(map.size_hint(), Some(0));
    assert_eq!(map.next_key(&mut de, &Shape::U8), Ok(None));
    assert_eq!(de.parse_u8(), Ok(7));
}

#[test]
fn reader_key_that_fails_leaves_the_count_and_the_key_before_it() {
    let mut source: &[u8] = &[5, 10, 2, 6];
    let mut de = DeserializeReader::new(&mut source, 1);
    let mut map = MapDeserializer::new(3);
    assert_eq!(map.next_key(&mut de, &Shape::U8), Ok(Some(Value::U8(5))));
    assert_eq!(map.next_value(&mut de, &Shape::U8), Ok(Value::U8(10)));
    assert_eq!(map.next_key(&mut de, &Shape::Bool), Err(Error::ExpectedBoolean));
    assert_eq!(map.size_hint(), Some(2));
}

#[test]
fn reader_bracketed_key_that_is_refused_changes_nothing() {
    let mut source: &[u8] = &[5, 3, 4];
    let mut de = DeserializeReader::new(&mut source, 1);
    let mut map = MapDeserializer::new(2);
    assert!(map.begin_key(&mut de));
    assert_eq!(de.parse_u8(), Ok(5));
    assert_eq!(map.end_key(&mut de), Ok(()));
    assert_eq!(map.size_hint(), Some(1));
    assert!(map.begin_key(&mut de));
    assert_eq!(de.parse_u8(), Ok(3));
    assert_eq!(map.end_key(&mut de), Err(Error::NonCanonicalMap));
    assert_eq!(map.size_hint(), Some(1));
    assert!(map.begin_key(&mut de));
    assert_eq!(de.parse_u8(), Ok(4));
    assert_eq!(map.end_key(&mut de), Err(Error::NonCanonicalMap));
    assert_eq!(map.size_hint(), Some(1));
}

#[test]
fn failure_of_a_source_is_told_by_its_kind() {
    let dry = std::io::Error::new(ErrorKind::UnexpectedEof, "whatever it says");
    assert_eq!(error_from_io(dry), Error::Eof);
    let other = std::io::Error::new(ErrorKind::TimedOut, "too slow");
    assert_eq!(error_from_io(other), Error::Io("too slow".to_string()));
    let plain = std::io::Error::from(ErrorKind::NotFound);
    assert!(matches!(error_from_io(plain), Error::Io(_)));
}

#[test]
fn reader_failure_outside_a_key_leaves_all_that_was_read_recorded() {
    let mut source: &[u8] = &[7, 2];
    let mut de = DeserializeReader::new(&mut source, 1);
    assert_eq!(de.start_capture(), None);
    assert_eq!(de.parse_u8(), Ok(7));
    assert_eq!(de.parse_bool(), Err(Error::ExpectedBoolean));
    assert_eq!(de.take_capture(), Some(vec![7, 2]));

    let mut source: &[u8] = &[1, 5, 2];
    let mut de = DeserializeReader::new(&mut source, 1);
    assert_eq!(de.start_capture(), None);
    let shape = Shape::Mapping(Box::new((Shape::U8, Shape::Bool)));
    assert_eq!(de.deserialize(&shape), Err(Error::ExpectedBoolean));
    assert_eq!(de.take_capture(), Some(vec![1, 5, 2]));

    let mut source: &[u8] = &[0x80, 0x80];
    let mut de = DeserializeReader::new(&mut source, 1);
    assert_eq!(de.start_capture(), None);
    assert_eq!(de.parse_length(), Err(Error::Eof));
    assert_eq!(de.take_capture(), Some(vec![0x80, 0x80]));
}

#[test]
fn reader_failure_inside_a_key_leaves_the_recording_of_the_key() {
    let mut source: &[u8] = &[1, 2];
    let mut de = DeserializeReader::new(&mut source, 1);
    let shape = Shape::Mapping(Box::new((Shape::Bool, Shape::U8)));
    assert_eq!(de.deserialize(&shape), Err(Error::ExpectedBoolean));
    assert_eq!(de.take_capture(), Some(vec![2]));

    let mut source: &[u8] = &[2, 0, 9];
    let mut de = DeserializeReader::new(&mut source, 1);
    assert_eq!(de.start_capture(), None);
    let shape = Shape::Mapping(Box::new((Shape::Bool, Shape::U8)));
    assert_eq!(de.deserialize(&shape), Err(Error::Eof));
    assert_eq!(de.take_capture(), Some(vec![]));

    let mut source: &[u8] = &[9];
    let mut de = DeserializeReader::new(&mut source, 1);
    let mut map = MapDeserializer::new(1);
    assert_eq!(map.next_key(&mut de, &Shape::U16), Err(Error::Eof));
    assert_eq!(de.take_capture(), Some(vec![]));
}

#[test]
fn reader_refused_key_leaves_no_recording() {
    let mut source: &[u8] = &[2, 5, 0, 3, 0];
    let mut de = DeserializeReader::new(&mut source, 1);
    assert_eq!(de.start_capture(), None);
    let shape = Shape::Mapping(Box::new((Shape::U8, Shape::U8)));
    assert_eq!(de.deserialize(&shape), Err(Error::NonCanonicalMap));
    assert_eq!(de.take_capture(), None);
}
