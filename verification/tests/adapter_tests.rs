use cerdito::adapters::{decode_arr, encode_arr};
use cerdito::codec::{ByteArr, ByteVec, Decode, Encode};
use cerdito::error::DecodeError;
use cerdito::tags::{variant_tags, TagOverflow};
use cerdito::wire::{Decoder, Encoder};

fn encode_to_vec<T: Encode>(v: &T) -> Vec<u8> {
    let mut e = Encoder::new();
    v.encode(&mut e);
    e.writer.buf
}

fn decode_from<T: Decode>(bytes: Vec<u8>) -> Result<T, DecodeError> {
    let mut d = Decoder::new(bytes);
    T::decode(&mut d)
}

#[test]
fn scalars_round_trip_through_adapters() {
    assert_eq!(decode_from::<u32>(encode_to_vec(&7u32)).unwrap(), 7);
    assert_eq!(decode_from::<u8>(encode_to_vec(&255u8)).unwrap(), 255);
    assert_eq!(decode_from::<i16>(encode_to_vec(&-300i16)).unwrap(), -300);
    assert_eq!(decode_from::<bool>(encode_to_vec(&false)).unwrap(), false);
    assert_eq!(decode_from::<char>(encode_to_vec(&'Z')).unwrap(), 'Z');
    assert_eq!(
        decode_from::<u128>(encode_to_vec(&u128::MAX)).unwrap(),
        u128::MAX
    );
    assert_eq!(
        decode_from::<i128>(encode_to_vec(&i128::MIN)).unwrap(),
        i128::MIN
    );
}

#[test]
fn string_adapter_round_trip() {
    let s = String::from("hello,world!");
    let decoded: String = decode_from(encode_to_vec(&s)).unwrap();
    assert_eq!(decoded, s);
    let empty = String::new();
    let decoded: String = decode_from(encode_to_vec(&empty)).unwrap();
    assert_eq!(decoded, empty);
}

#[test]
fn bytevec_round_trip() {
    let v = ByteVec(vec![0, 1, 2, 255]);
    let decoded: ByteVec = decode_from(encode_to_vec(&v)).unwrap();
    assert_eq!(decoded, v);
}

#[test]
fn bytearr_round_trip_and_length_check() {
    let v: ByteArr<4> = ByteArr(vec![9, 8, 7, 6]);
    let decoded: ByteArr<4> = decode_from(encode_to_vec(&v)).unwrap();
    assert_eq!(decoded, v);
    // three bytes on the wire cannot fill a declared four-byte array
    let three: ByteArr<3> = ByteArr(vec![1, 2, 3]);
    let r: Result<ByteArr<4>, _> = decode_from(encode_to_vec(&three));
    assert_eq!(r, Err(DecodeError::BadLength));
}

#[test]
fn vec_round_trip() {
    let v: Vec<u32> = vec![0, 1, 95, 96, 0xffff_ffff];
    let decoded: Vec<u32> = decode_from(encode_to_vec(&v)).unwrap();
    assert_eq!(decoded, v);
    let empty: Vec<u32> = vec![];
    let decoded: Vec<u32> = decode_from(encode_to_vec(&empty)).unwrap();
    assert_eq!(decoded, empty);
    let nested: Vec<Vec<u8>> = vec![vec![1], vec![], vec![2, 3]];
    let decoded: Vec<Vec<u8>> = decode_from(encode_to_vec(&nested)).unwrap();
    assert_eq!(decoded, nested);
}

#[test]
fn box_is_transparent_on_the_wire() {
    let b = Box::new(42u32);
    assert_eq!(encode_to_vec(&b), encode_to_vec(&42u32));
    let decoded: Box<u32> = decode_from(encode_to_vec(&b)).unwrap();
    assert_eq!(*decoded, 42);
}

#[test]
fn option_wire_form() {
    // None is the unit variant at tag zero: one zero byte
    let none: Option<u32> = None;
    assert_eq!(encode_to_vec(&none), vec![0x00]);
    // Some(7) is a tag frame, a one-field record, the field
    let some: Option<u32> = Some(7);
    assert_eq!(encode_to_vec(&some), vec![0x61, 0xc0, 0x07]);
}

#[test]
fn option_round_trip() {
    let none: Option<u32> = None;
    let decoded: Option<u32> = decode_from(encode_to_vec(&none)).unwrap();
    assert_eq!(decoded, None);
    let some: Option<u32> = Some(7);
    let decoded: Option<u32> = decode_from(encode_to_vec(&some)).unwrap();
    assert_eq!(decoded, Some(7));
    let nested: Option<Option<String>> = Some(Some(String::from("x")));
    let decoded: Option<Option<String>> = decode_from(encode_to_vec(&nested)).unwrap();
    assert_eq!(decoded, nested);
}

#[test]
fn option_unknown_tag_reports_union_and_tag() {
    // tag 2 in unit form: no matching variant
    let r: Result<Option<u32>, _> = decode_from(vec![0x02]);
    assert_eq!(
        r,
        Err(DecodeError::UnknownVariant {
            enum_name: String::from("Option"),
            tag: 2
        })
    );
    // tag 5 in payload form
    let r: Result<Option<u32>, _> = decode_from(vec![0x65, 0xc0, 0x07]);
    assert_eq!(
        r,
        Err(DecodeError::UnknownVariant {
            enum_name: String::from("Option"),
            tag: 5
        })
    );
}

#[test]
fn option_unit_encoded_variant_takes_defaults() {
    // a bare Value(1): tag one with no payload record decodes as Some(default)
    let r: Option<u32> = decode_from(vec![0x01]).unwrap();
    assert_eq!(r, Some(0));
    let r: Option<String> = decode_from(vec![0x01]).unwrap();
    assert_eq!(r, Some(String::new()));
}

#[test]
fn option_payload_encoded_none_skips_record() {
    // EnumTag(0) followed by a one-field record: the record is walked past
    let mut e = Encoder::new();
    e.encode_enum_begin(0, 1, "Option", "None");
    (String::from("gone"),).encode(&mut e);
    e.encode_enum_end();
    e.encode_u8(&9);
    let mut d = Decoder::new(e.writer.buf);
    assert_eq!(<Option<u32>>::decode(&mut d).unwrap(), None);
    assert_eq!(d.decode_u8().unwrap(), 9);
}

#[test]
fn tuples_round_trip() {
    let unit: () = decode_from(encode_to_vec(&())).unwrap();
    assert_eq!(unit, ());
    let one: (u32,) = decode_from(encode_to_vec(&(5u32,))).unwrap();
    assert_eq!(one, (5,));
    let two: (String, i32) = decode_from(encode_to_vec(&(String::from("a"), -9i32))).unwrap();
    assert_eq!(two, (String::from("a"), -9));
    let three: (u8, bool, String) =
        decode_from(encode_to_vec(&(1u8, true, String::from("b")))).unwrap();
    assert_eq!(three, (1, true, String::from("b")));
}

#[test]
fn variant_tags_implicit_and_explicit() {
    assert_eq!(
        variant_tags(&vec![None, None, None]).unwrap(),
        vec![0, 1, 2]
    );
    assert_eq!(
        variant_tags(&vec![Some(5), None, None, Some(2), None]).unwrap(),
        vec![5, 6, 7, 2, 3]
    );
    assert_eq!(variant_tags(&vec![]).unwrap(), Vec::<u32>::new());
}

#[test]
fn variant_tags_overflow_is_reported() {
    assert_eq!(
        variant_tags(&vec![Some(0x1_0000_0000)]),
        Err(TagOverflow {
            index: 0,
            tag: 0x1_0000_0000
        })
    );
    assert_eq!(
        variant_tags(&vec![Some(0xffff_ffff), None]),
        Err(TagOverflow {
            index: 1,
            tag: 0x1_0000_0000
        })
    );
}

#[test]
fn fixed_array_round_trip() {
    let v: Vec<u32> = vec![1, 2, 3];
    let mut e = Encoder::new();
    encode_arr(&v, &mut e);
    let mut d = Decoder::new(e.writer.buf);
    let r: Vec<u32> = decode_arr(&mut d, 3).unwrap();
    assert_eq!(r, v);
}

#[test]
fn fixed_array_length_mismatch_is_fatal() {
    let v: Vec<u32> = vec![1, 2, 3];
    let mut e = Encoder::new();
    encode_arr(&v, &mut e);
    let mut d = Decoder::new(e.writer.buf);
    let r: Result<Vec<u32>, _> = decode_arr(&mut d, 4);
    assert_eq!(r, Err(DecodeError::BadLength));
}
