use cerdito::frame::{header_payload_len, VarIntLen};
use cerdito::transport::{Reader, Writer};

const M_VALUE: u8 = 0b00_000000; // 0x00
const M_BYTES: u8 = 0b10_000000; // 0x80
const M_STRUCT: u8 = 0b110_00000; // 0xc0
const M_VALUE_LEN: u8 = 0b1110_0000; // 0xe0
const M_BYTES_LEN: u8 = 0b11110_000; // 0xf0
const M_STRUCT_LEN: u8 = 0b111110_00; // 0xf8
const M_ENUM_LEN: u8 = 0b111111_00; // 0xfc

#[test]
fn test_varintlen_write_values() {
    let mut w = Writer::new();
    VarIntLen::new().write(&mut w);
    VarIntLen::from_value_slice(&[63_u8][..]).write(&mut w);
    VarIntLen::from_value_slice(&[127_u8, 0, 0, 0][..]).write(&mut w);
    VarIntLen::from_value_slice(&[128_u8, 0, 0][..]).write(&mut w);
    VarIntLen::from_value_slice(&[255_u8, 0][..]).write(&mut w);
    assert_eq!(
        w.buf,
        vec![
            M_VALUE | 0_u8,
            M_VALUE | 63_u8,
            M_VALUE_LEN | 0_u8,
            127_u8,
            M_VALUE_LEN | 0_u8,
            128,
            M_VALUE_LEN | 0_u8,
            255,
        ]
    );
}

#[test]
fn test_varintlen_write_byte_sizes() {
    let mut w = Writer::new();
    VarIntLen::from_byte_size(0).write(&mut w);
    VarIntLen::from_byte_size(1).write(&mut w);
    VarIntLen::from_byte_size(7).write(&mut w);
    VarIntLen::from_byte_size(63).write(&mut w);
    VarIntLen::from_byte_size(64).write(&mut w);
    VarIntLen::from_byte_size(65).write(&mut w);
    VarIntLen::from_byte_size(0xffffff).write(&mut w);
    VarIntLen::from_byte_size(0xffffffff_ffffffff).write(&mut w);
    assert_eq!(
        w.buf,
        vec![
            M_VALUE | 0_u8,
            M_BYTES | 0_u8,
            M_BYTES | 6_u8,
            M_BYTES | 62_u8,
            M_BYTES | 63_u8,
            M_BYTES_LEN | 0_u8,
            65,
            M_BYTES_LEN | 2_u8,
            0xff,
            0xff,
            0xff,
            M_BYTES_LEN | 7_u8,
            0xff,
            0xff,
            0xff,
            0xff,
            0xff,
            0xff,
            0xff,
            0xff,
        ]
    );
}

#[test]
fn test_varintlen_write_struct_lens() {
    let mut w = Writer::new();
    VarIntLen::from_struct_len(0).write(&mut w);
    VarIntLen::from_struct_len(1).write(&mut w);
    VarIntLen::from_struct_len(7).write(&mut w);
    VarIntLen::from_struct_len(31).write(&mut w);
    VarIntLen::from_struct_len(32).write(&mut w);
    VarIntLen::from_struct_len(33).write(&mut w);
    VarIntLen::from_struct_len(0xffff_ffff).write(&mut w);
    VarIntLen::from_struct_len(0x01020304).write(&mut w);
    assert_eq!(
        w.buf,
        vec![
            M_VALUE | 0_u8,
            M_STRUCT | 0_u8,
            M_STRUCT | 6_u8,
            M_STRUCT | 30_u8,
            M_STRUCT | 31_u8,
            M_STRUCT_LEN | 0_u8,
            33,
            M_STRUCT_LEN | 3_u8,
            0xff,
            0xff,
            0xff,
            0xff,
            M_STRUCT_LEN | 3_u8,
            0x04,
            0x03,
            0x02,
            0x01,
        ]
    );
}

#[test]
fn test_varintlen_read() {
    let data: Vec<u8> = vec![
        M_VALUE | 0_u8,
        M_STRUCT | 0_u8,
        M_STRUCT | 6_u8,
        M_STRUCT | 30_u8,
        M_STRUCT | 31_u8,
        M_STRUCT_LEN | 0_u8,
        33,
        M_STRUCT_LEN | 3_u8,
        0xff,
        0xff,
        0xff,
        0xff,
        M_STRUCT_LEN | 3_u8,
        0x08,
        0x07,
        0x06,
        0x05,
        M_BYTES | 0_u8,
        M_BYTES | 6_u8,
        M_BYTES | 62_u8,
        M_BYTES | 63_u8,
        M_BYTES_LEN | 0_u8,
        65,
        M_BYTES_LEN | 2_u8,
        0xff,
        0xff,
        0xff,
        M_BYTES_LEN | 7_u8,
        0xff,
        0xff,
        0xff,
        0xff,
        0xff,
        0xff,
        0xff,
        0xff,
        M_VALUE | 1_u8,
        M_VALUE | 63_u8,
        M_VALUE_LEN | 0_u8,
        64,
        M_VALUE_LEN | 0_u8,
        255,
        M_VALUE_LEN | 1_u8,
        0,
        1,
        M_VALUE_LEN | 0_u8,
        127,
        0_u8 + 96,
        1_u8 + 96,
        31_u8 + 96,
        M_ENUM_LEN | 0_u8,
        32,
        M_ENUM_LEN | 0_u8,
        62,
        M_ENUM_LEN | 0_u8,
        63,
        M_ENUM_LEN | 0_u8,
        64,
        M_ENUM_LEN | 0_u8,
        65,
        M_ENUM_LEN | 0_u8,
        127,
        M_ENUM_LEN | 0_u8,
        128,
        M_ENUM_LEN | 3_u8,
        0xff,
        0xff,
        0xff,
        0xff,
        0x00,
    ];
    let mut r = Reader::new(data);

    let (v, _n) = VarIntLen::from_reader(&mut r).unwrap();
    assert_eq!(v, VarIntLen::Zero);
    let (v, _n) = VarIntLen::from_reader(&mut r).unwrap();
    assert_eq!(v, VarIntLen::from_struct_len(1));
    let (v, _n) = VarIntLen::from_reader(&mut r).unwrap();
    assert_eq!(v, VarIntLen::from_struct_len(7));
    let (v, _n) = VarIntLen::from_reader(&mut r).unwrap();
    assert_eq!(v, VarIntLen::from_struct_len(31));
    let (v, _n) = VarIntLen::from_reader(&mut r).unwrap();
    assert_eq!(v, VarIntLen::from_struct_len(32));
    let (v, _n) = VarIntLen::from_reader(&mut r).unwrap();
    assert_eq!(v, VarIntLen::from_struct_len(33));
    let (v, _n) = VarIntLen::from_reader(&mut r).unwrap();
    assert_eq!(v, VarIntLen::from_struct_len(0xffff_ffff));
    let (v, _n) = VarIntLen::from_reader(&mut r).unwrap();
    assert_eq!(v, VarIntLen::from_struct_len(0x05060708));

    let (v, _n) = VarIntLen::from_reader(&mut r).unwrap();
    assert_eq!(v, VarIntLen::from_byte_size(1));
    let (v, _n) = VarIntLen::from_reader(&mut r).unwrap();
    assert_eq!(v, VarIntLen::from_byte_size(7));
    let (v, _n) = VarIntLen::from_reader(&mut r).unwrap();
    assert_eq!(v, VarIntLen::from_byte_size(63));
    let (v, _n) = VarIntLen::from_reader(&mut r).unwrap();
    assert_eq!(v, VarIntLen::from_byte_size(64));
    let (v, _n) = VarIntLen::from_reader(&mut r).unwrap();
    assert_eq!(v, VarIntLen::from_byte_size(65));
    let (v, _n) = VarIntLen::from_reader(&mut r).unwrap();
    assert_eq!(v, VarIntLen::from_byte_size(0xffffff));
    let (v, _n) = VarIntLen::from_reader(&mut r).unwrap();
    assert_eq!(v, VarIntLen::from_byte_size(0xffffffff_ffffffff));

    let (v, _n) = VarIntLen::from_reader(&mut r).unwrap();
    assert_eq!(v, VarIntLen::from_value_slice(&[1_u8][..]));
    let (v, _n) = VarIntLen::from_reader(&mut r).unwrap();
    assert_eq!(v, VarIntLen::from_value_slice(&[63_u8, 0][..]));
    let (v, _n) = VarIntLen::from_reader(&mut r).unwrap();
    assert_eq!(v, VarIntLen::from_value_slice(&[64_u8, 0, 0, 0, 0][..]));
    let (v, _n) = VarIntLen::from_reader(&mut r).unwrap();
    assert_eq!(v, VarIntLen::from_value_slice(&[255_u8, 0, 0, 0, 0][..]));
    let (v, _n) = VarIntLen::from_reader(&mut r).unwrap();
    assert_eq!(v, VarIntLen::from_value_slice(&[0_u8, 1, 0, 0, 0][..]));
    let (v, _n) = VarIntLen::from_reader(&mut r).unwrap();
    assert_eq!(v, VarIntLen::from_value_slice(&[127_u8, 0][..]));

    let (v, _n) = VarIntLen::from_reader(&mut r).unwrap();
    assert_eq!(v, VarIntLen::from_enum_tag(0));
    let (v, _n) = VarIntLen::from_reader(&mut r).unwrap();
    assert_eq!(v, VarIntLen::from_enum_tag(1));
    let (v, _n) = VarIntLen::from_reader(&mut r).unwrap();
    assert_eq!(v, VarIntLen::from_enum_tag(31));
    let (v, _n) = VarIntLen::from_reader(&mut r).unwrap();
    assert_eq!(v, VarIntLen::from_enum_tag(32));
    let (v, _n) = VarIntLen::from_reader(&mut r).unwrap();
    assert_eq!(v, VarIntLen::from_enum_tag(62));
    let (v, _n) = VarIntLen::from_reader(&mut r).unwrap();
    assert_eq!(v, VarIntLen::from_enum_tag(63));
    let (v, _n) = VarIntLen::from_reader(&mut r).unwrap();
    assert_eq!(v, VarIntLen::from_enum_tag(64));
    let (v, _n) = VarIntLen::from_reader(&mut r).unwrap();
    assert_eq!(v, VarIntLen::from_enum_tag(65));
    let (v, _n) = VarIntLen::from_reader(&mut r).unwrap();
    assert_eq!(v, VarIntLen::from_enum_tag(127));
    let (v, _n) = VarIntLen::from_reader(&mut r).unwrap();
    assert_eq!(v, VarIntLen::from_enum_tag(128));
    let (v, _n) = VarIntLen::from_reader(&mut r).unwrap();
    assert_eq!(v, VarIntLen::from_enum_tag(0xffff_ffff));

    let (v, _n) = VarIntLen::from_reader(&mut r).unwrap();
    assert_eq!(v, VarIntLen::Zero);
}

#[test]
fn frame_write_read_symmetry() {
    let frames = vec![
        VarIntLen::Zero,
        VarIntLen::from_value_slice(&[63][..]),
        VarIntLen::from_value_slice(&[0xff, 0xff, 1][..]),
        VarIntLen::from_byte_size(64),
        VarIntLen::from_byte_size(65),
        VarIntLen::from_struct_len(32),
        VarIntLen::from_struct_len(0xffff_ffff),
        VarIntLen::from_enum_tag(0),
        VarIntLen::from_enum_tag(31),
        VarIntLen::from_enum_tag(200),
    ];
    for f in frames {
        let mut w = Writer::new();
        let written = f.write(&mut w);
        assert_eq!(written, w.buf.len());
        let mut r = Reader::new(w.buf);
        let (g, n) = VarIntLen::from_reader(&mut r).unwrap();
        assert_eq!(g, f);
        assert_eq!(n, written);
        assert_eq!(r.len(), 0);
    }
}

#[test]
fn frame_value_63_writes_one_byte() {
    let mut w = Writer::new();
    VarIntLen::from_value_slice(&[63][..]).write(&mut w);
    assert_eq!(w.buf, vec![0x3f]);
    let mut r = Reader::new(w.buf);
    let (v, _n) = VarIntLen::from_reader(&mut r).unwrap();
    assert_eq!(v, VarIntLen::Value(63));
}

#[test]
fn frame_byte_size_boundary() {
    let mut w = Writer::new();
    VarIntLen::from_byte_size(64).write(&mut w);
    assert_eq!(w.buf, vec![0xbf]);
    let mut w = Writer::new();
    VarIntLen::from_byte_size(65).write(&mut w);
    assert_eq!(w.buf, vec![0xf0, 65]);
}

#[test]
fn frame_struct_len_max() {
    let mut w = Writer::new();
    VarIntLen::from_struct_len(0xffff_ffff).write(&mut w);
    assert_eq!(w.buf, vec![0xfb, 0xff, 0xff, 0xff, 0xff]);
}

#[test]
fn frame_read_eof() {
    let mut r = Reader::new(vec![]);
    assert!(VarIntLen::from_reader(&mut r).is_err());
    // a long-form header whose payload is missing
    let mut r = Reader::new(vec![0xe3, 1, 2]);
    assert!(VarIntLen::from_reader(&mut r).is_err());
}

#[test]
fn header_announces_payload_bytes() {
    assert_eq!(header_payload_len(0x00), 0);
    assert_eq!(header_payload_len(0x5f), 0);
    assert_eq!(header_payload_len(0xbf), 0);
    assert_eq!(header_payload_len(0xe0), 1);
    assert_eq!(header_payload_len(0xef), 16);
    assert_eq!(header_payload_len(0xf7), 8);
    assert_eq!(header_payload_len(0xfb), 4);
    assert_eq!(header_payload_len(0xff), 4);
}

#[test]
fn transport_moves_exact_counts() {
    let mut w = Writer::new();
    assert_eq!(w.write(&[1, 2, 3]), 3);
    assert_eq!(w.write_byte(4), 1);
    assert_eq!(w.buf, vec![1, 2, 3, 4]);
    let mut r = Reader::new(w.buf);
    assert_eq!(r.len(), 4);
    assert_eq!(r.read(3).unwrap(), vec![1, 2, 3]);
    // more than what is left: nothing is consumed
    assert!(r.read(2).is_none());
    assert_eq!(r.read(1).unwrap(), vec![4]);
    assert_eq!(r.len(), 0);
}
