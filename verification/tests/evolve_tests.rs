//! Schema evolution exercised end to end: a producer and a consumer whose
//! record declarations differ by one field, in both directions.

use cerdito::codec::{Decode, Encode};
use cerdito::wire::{Decoder, Encoder};

fn encode_to_vec<T: Encode>(v: &T) -> Vec<u8> {
    let mut e = Encoder::new();
    v.encode(&mut e);
    e.writer.buf
}

#[test]
fn three_field_reader_fills_missing_field_with_default() {
    // written with a two-field declaration, read with a three-field one
    let old = (String::from("hello,world!"), 15i32);
    let bytes = encode_to_vec(&old);
    let mut d = Decoder::new(bytes);
    let new: (String, i32, i32) = Decode::decode(&mut d).unwrap();
    assert_eq!(new, (String::from("hello,world!"), 15, 0));
    assert_eq!(d.reader.pos, d.reader.data.len());
}

#[test]
fn two_field_reader_skips_surplus_field() {
    // written with a three-field declaration, read with a two-field one
    let new = (String::from("hello,world!"), 15i32, 99i32);
    let bytes = encode_to_vec(&new);
    let whole = bytes.len();
    let mut d = Decoder::new(bytes);
    let old: (String, i32) = Decode::decode(&mut d).unwrap();
    assert_eq!(old, (String::from("hello,world!"), 15));
    // the reader stands past the whole record, surplus field included
    assert_eq!(d.reader.pos, whole);
}

#[test]
fn one_field_reader_against_empty_record() {
    // a unit record read with a one-field declaration: the field defaults
    let bytes = encode_to_vec(&());
    let mut d = Decoder::new(bytes);
    let one: (u32,) = Decode::decode(&mut d).unwrap();
    assert_eq!(one, (0,));
}

#[test]
fn empty_reader_against_two_field_record() {
    // a two-field record read with a unit declaration: both fields skipped
    let bytes = encode_to_vec(&(7u32, String::from("x")));
    let whole = bytes.len();
    let mut d = Decoder::new(bytes);
    let unit: () = Decode::decode(&mut d).unwrap();
    assert_eq!(unit, ());
    assert_eq!(d.reader.pos, whole);
}

#[test]
fn option_both_forms_decode_identically() {
    // None as a plain zero and Some(7) as tag-plus-record, as on the wire
    let mut d = Decoder::new(vec![0x00]);
    assert_eq!(<Option<u32>>::decode(&mut d).unwrap(), None);
    let mut d = Decoder::new(vec![0x61, 0xc0, 0x07]);
    assert_eq!(<Option<u32>>::decode(&mut d).unwrap(), Some(7));
}

#[test]
fn option_some_with_empty_record_defaults() {
    // tag one with a zero-length payload record: the field defaults
    let mut e = Encoder::new();
    e.encode_enum_begin(1, 1, "Option", "Some");
    e.encode_struct_begin(0, None);
    e.encode_struct_end();
    e.encode_enum_end();
    let mut d = Decoder::new(e.writer.buf);
    assert_eq!(<Option<u32>>::decode(&mut d).unwrap(), Some(0));
}

#[test]
fn option_some_with_wider_record_skips_surplus() {
    // tag one with a two-field payload record: the second field is skipped
    let mut e = Encoder::new();
    e.encode_enum_begin(1, 1, "Option", "Some");
    e.encode_struct_begin(2, None);
    e.encode_u32(&7);
    e.encode_string("surplus");
    e.encode_struct_end();
    e.encode_enum_end();
    let whole = e.writer.buf.len();
    let mut d = Decoder::new(e.writer.buf);
    assert_eq!(<Option<u32>>::decode(&mut d).unwrap(), Some(7));
    assert_eq!(d.reader.pos, whole);
}
