use cerdito::error::DecodeError;
use cerdito::wire::{Decoder, Encoder};

#[test]
fn scalar_wire_bytes() {
    let mut e = Encoder::new();
    e.encode_u8(&0);
    e.encode_u8(&95);
    e.encode_u8(&96);
    e.encode_u32(&300);
    e.encode_u64(&0x0102_0304);
    assert_eq!(
        e.writer.buf,
        vec![0x00, 0x5f, 0xe0, 96, 0xe1, 0x2c, 0x01, 0xe3, 0x04, 0x03, 0x02, 0x01]
    );
}

#[test]
fn scalar_round_trip() {
    let mut e = Encoder::new();
    e.encode_bool(&true);
    e.encode_char(&'\u{1F600}');
    e.encode_u16(&0xffff);
    e.encode_u128(&0xffff_ffff_ffff_ffff_ffff_ffff_ffff_ffff);
    e.encode_i8(&-1);
    e.encode_i32(&-123456);
    e.encode_i64(&i64::MIN);
    e.encode_i128(&i128::MAX);
    let mut d = Decoder::new(e.writer.buf);
    assert_eq!(d.decode_bool().unwrap(), true);
    assert_eq!(d.decode_char().unwrap(), '\u{1F600}');
    assert_eq!(d.decode_u16().unwrap(), 0xffff);
    assert_eq!(
        d.decode_u128().unwrap(),
        0xffff_ffff_ffff_ffff_ffff_ffff_ffff_ffff
    );
    assert_eq!(d.decode_i8().unwrap(), -1);
    assert_eq!(d.decode_i32().unwrap(), -123456);
    assert_eq!(d.decode_i64().unwrap(), i64::MIN);
    assert_eq!(d.decode_i128().unwrap(), i128::MAX);
}

#[test]
fn zigzag_wire_form() {
    // small magnitudes of either sign stay one byte
    let mut e = Encoder::new();
    e.encode_i32(&-1);
    e.encode_i32(&1);
    e.encode_i32(&-48);
    assert_eq!(e.writer.buf, vec![0x01, 0x02, 0x5f]);
}

#[test]
fn string_round_trip_utf8() {
    // four Cyrillic letters: eight UTF-8 bytes behind one size frame
    let s = "\u{414}\u{438}\u{43c}\u{430}";
    let mut e = Encoder::new();
    e.encode_string(s);
    assert_eq!(
        e.writer.buf,
        vec![0x87, 0xd0, 0x94, 0xd0, 0xb8, 0xd0, 0xbc, 0xd0, 0xb0]
    );
    let mut d = Decoder::new(e.writer.buf);
    assert_eq!(d.decode_string().unwrap(), s);
}

#[test]
fn string_invalid_utf8_is_fatal() {
    let mut d = Decoder::new(vec![0x80, 0xff]);
    assert_eq!(d.decode_string(), Err(DecodeError::Utf8));
}

#[test]
fn binary_round_trip() {
    let mut e = Encoder::new();
    e.encode_binary(&[1, 2, 3]);
    assert_eq!(e.writer.buf, vec![0x82, 1, 2, 3]);
    let mut d = Decoder::new(e.writer.buf);
    assert_eq!(d.decode_binary(None).unwrap(), vec![1, 2, 3]);
}

#[test]
fn bad_header_is_fatal() {
    // a byte-size frame where a scalar is expected
    let mut d = Decoder::new(vec![0x82, 1, 2]);
    assert_eq!(d.decode_u32(), Err(DecodeError::BadHeader));
    // a scalar frame where a record is expected
    let mut d = Decoder::new(vec![0x07]);
    assert_eq!(d.decode_struct_begin(1, None), Err(DecodeError::BadHeader));
    // a record frame where a blob is expected
    let mut d = Decoder::new(vec![0xc0]);
    assert_eq!(d.decode_bytes_begin(None), Err(DecodeError::BadHeader));
}

#[test]
fn eof_is_fatal() {
    let mut d = Decoder::new(vec![]);
    assert_eq!(d.decode_u8(), Err(DecodeError::Eof));
    // a blob whose announced bytes never arrive
    let mut d = Decoder::new(vec![0x85, 1, 2]);
    assert_eq!(d.decode_binary(None), Err(DecodeError::Eof));
}

#[test]
fn bad_char_is_fatal() {
    // 0xD800 is a surrogate, not a scalar value
    let mut e = Encoder::new();
    e.encode_u32(&0xd800);
    let mut d = Decoder::new(e.writer.buf);
    assert_eq!(d.decode_char(), Err(DecodeError::BadChar));
}

#[test]
fn decode_uint_pads_to_width() {
    let mut e = Encoder::new();
    e.encode_uint(&[1]);
    let mut d = Decoder::new(e.writer.buf);
    assert_eq!(d.decode_uint(4).unwrap(), vec![1, 0, 0, 0]);
}

#[test]
fn seq_and_enum_headers() {
    let mut e = Encoder::new();
    e.encode_seq_begin(3);
    e.encode_seq_end();
    e.encode_enum_begin(0, 0, "Choice", "A");
    e.encode_enum_end();
    e.encode_enum_begin(1, 1, "Choice", "B");
    e.encode_enum_end();
    assert_eq!(e.writer.buf, vec![0xc2, 0x00, 0x61]);
    let mut d = Decoder::new(e.writer.buf);
    assert_eq!(d.decode_seq_begin(None).unwrap(), 3);
    d.decode_seq_end().unwrap();
    assert_eq!(d.decode_enum_begin("Choice").unwrap(), (0, 0));
    d.decode_enum_end().unwrap();
    assert_eq!(d.decode_enum_begin("Choice").unwrap(), (1, 1));
    d.decode_enum_end().unwrap();
}

#[test]
fn skip_walks_one_value() {
    // a record of two values, then a trailing scalar
    let mut e = Encoder::new();
    e.encode_struct_begin(2, None);
    e.encode_u32(&1000);
    e.encode_string("abc");
    e.encode_struct_end();
    let record_len = e.writer.buf.len();
    e.encode_u8(&7);
    let mut d = Decoder::new(e.writer.buf);
    d.decode_skip(1).unwrap();
    assert_eq!(d.reader.pos, record_len);
    assert_eq!(d.decode_u8().unwrap(), 7);
}

#[test]
fn skip_walks_nested_values() {
    // a record holding a blob, a nested record and a tagged union value
    let mut e = Encoder::new();
    e.encode_struct_begin(3, None);
    e.encode_binary(&[9; 70]);
    e.encode_struct_begin(2, None);
    e.encode_u8(&1);
    e.encode_u8(&2);
    e.encode_struct_end();
    e.encode_enum_begin(5, 1, "Choice", "C");
    e.encode_struct_begin(1, None);
    e.encode_u8(&3);
    e.encode_struct_end();
    e.encode_enum_end();
    e.encode_struct_end();
    let whole = e.writer.buf.len();
    let mut d = Decoder::new(e.writer.buf);
    d.decode_skip(1).unwrap();
    assert_eq!(d.reader.pos, whole);
}

#[test]
fn skip_eof_when_stream_ends() {
    let mut d = Decoder::new(vec![0xc1]);
    assert_eq!(d.decode_skip(1), Err(DecodeError::Eof));
}

#[test]
fn packed_vectors_round_trip() {
    let mut e = Encoder::new();
    e.encode_vec_u16(&[1, 0x200]);
    assert_eq!(e.writer.buf, vec![0x83, 1, 0, 0, 2]);
    let mut e = Encoder::new();
    e.encode_vec_bool(&[true, false, true]);
    assert_eq!(e.writer.buf, vec![0x82, 1, 0, 1]);
    let mut e = Encoder::new();
    e.encode_vec_char(&['A', 'B']);
    assert_eq!(e.writer.buf, vec![0x87, 65, 0, 0, 0, 66, 0, 0, 0]);
    let mut e = Encoder::new();
    e.encode_vec_i8(&[-1, 1]);
    assert_eq!(e.writer.buf, vec![0x81, 0xff, 0x01]);
    let mut e = Encoder::new();
    e.encode_vec_i32(&[-2]);
    assert_eq!(e.writer.buf, vec![0x83, 0xfe, 0xff, 0xff, 0xff]);
    let mut e = Encoder::new();
    e.encode_vec_u8(&[7, 8]);
    assert_eq!(e.writer.buf, vec![0x81, 7, 8]);
}

#[test]
fn packed_vectors_decode_back() {
    let mut e = Encoder::new();
    e.encode_vec_u16(&[1, 0x200]);
    e.encode_vec_bool(&[true, false, true]);
    e.encode_vec_char(&['A', '\u{1F600}']);
    e.encode_vec_i8(&[-1, 1]);
    e.encode_vec_i64(&[i64::MIN, i64::MAX]);
    e.encode_vec_u128(&[u128::MAX]);
    let mut d = Decoder::new(e.writer.buf);
    assert_eq!(d.decode_vec_u16(None).unwrap(), vec![1, 0x200]);
    assert_eq!(d.decode_vec_bool(None).unwrap(), vec![true, false, true]);
    assert_eq!(d.decode_vec_char(None).unwrap(), vec!['A', '\u{1F600}']);
    assert_eq!(d.decode_vec_i8(None).unwrap(), vec![-1, 1]);
    assert_eq!(d.decode_vec_i64(None).unwrap(), vec![i64::MIN, i64::MAX]);
    assert_eq!(d.decode_vec_u128(None).unwrap(), vec![u128::MAX]);
}

#[test]
fn packed_vector_size_must_divide() {
    // a three-byte blob cannot hold two-byte elements
    let mut d = Decoder::new(vec![0x82, 1, 2, 3]);
    assert_eq!(d.decode_vec_u16(None), Err(DecodeError::BadLength));
}

#[test]
fn packed_vector_bad_scalar_is_fatal() {
    // a four-byte group spelling a surrogate is not a character
    let mut d = Decoder::new(vec![0x83, 0x00, 0xd8, 0x00, 0x00]);
    assert_eq!(d.decode_vec_char(None), Err(DecodeError::BadChar));
}

#[test]
fn zero_frames_decode_as_zero_everywhere() {
    // one zero byte serves any category
    let mut d = Decoder::new(vec![0x00, 0x00, 0x00, 0x00]);
    assert_eq!(d.decode_u64().unwrap(), 0);
    assert_eq!(d.decode_seq_begin(None).unwrap(), 0);
    assert_eq!(d.decode_bytes_begin(None).unwrap(), 0);
    assert_eq!(d.decode_enum_begin("Choice").unwrap(), (0, 0));
}
