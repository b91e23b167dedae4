//! The wire codec: protocol events translated into frames and payload
//! bytes.  Scalars travel as `Value` frames of their trimmed little-endian
//! bytes, signed integers zigzagged first; strings and blobs as a
//! `ByteSize` frame plus raw bytes; sequences and records as a `StructLen`
//! frame plus their elements; unions as a `Value` frame (unit variant) or an
//! `EnumTag` frame followed by one record.

use vstd::prelude::*;

use crate::bytes::{le_bytes, le_val, lemma_le_bytes_len, pow256};
use crate::error::{DecodeError, WireError};
use crate::frame::{frame_bytes, len_frame, parse_frame, size_frame, value_frame, VarIntLen};
use crate::transport::{Reader, Writer};
use crate::zigzag::{zigzag_i128, zigzag_i16, zigzag_i32, zigzag_i64, zigzag_i8, zigzag_of_i128,
    zigzag_of_i16, zigzag_of_i32, zigzag_of_i64, zigzag_of_i8};

verus! {

/// The wire form of a bare scalar: one frame, `Zero` or `Value`.
pub open spec fn uint_bytes(v: u128) -> Seq<u8> {
    frame_bytes(value_frame(v))
}

/// The wire form of a byte blob: its size frame, then the bytes themselves.
pub open spec fn blob_bytes(b: Seq<u8>) -> Seq<u8> {
    frame_bytes(size_frame(b.len() as u64)) + b
}

/// The wire form of a union head: a plain value for a unit variant, a tag
/// frame when one payload record follows.
pub open spec fn enum_head_bytes(tag: u32, payload: nat) -> Seq<u8> {
    if payload == 0 {
        uint_bytes(tag as u128)
    } else {
        frame_bytes(VarIntLen::EnumTag(tag))
    }
}

/// Fixed-width values packed back to back, each as `w` little-endian bytes.
pub open spec fn packed(vals: Seq<nat>, w: nat) -> Seq<u8>
    decreases vals.len(),
{
    if vals.len() == 0 {
        Seq::empty()
    } else {
        le_bytes(vals[0], w) + packed(vals.drop_first(), w)
    }
}

/// Packing `n` values of width `w` takes `n * w` bytes.
pub proof fn lemma_packed_len(vals: Seq<nat>, w: nat)
    ensures
        packed(vals, w).len() == vals.len() * w,
    decreases vals.len(),
{
    if vals.len() > 0 {
        lemma_packed_len(vals.drop_first(), w);
        lemma_le_bytes_len(vals[0], w);
        assert(vals.len() * w == w + (vals.len() - 1) * w) by (nonlinear_arith);
    }
}

/// One more element extends the packed bytes by one little-endian group.
pub proof fn lemma_packed_step(vals: Seq<nat>, w: nat, i: int)
    requires
        0 <= i < vals.len(),
    ensures
        packed(vals.take(i + 1), w) == packed(vals.take(i), w) + le_bytes(vals[i], w),
{
    lemma_packed_snoc(vals.take(i + 1), w);
    assert(vals.take(i + 1).drop_last() =~= vals.take(i));
    assert(vals.take(i + 1).last() == vals[i]);
}

pub proof fn lemma_packed_snoc(vals: Seq<nat>, w: nat)
    requires
        vals.len() > 0,
    ensures
        packed(vals, w) == packed(vals.drop_last(), w) + le_bytes(vals.last(), w),
    decreases vals.len(),
{
    if vals.len() == 1 {
        assert(vals.drop_last() =~= Seq::<nat>::empty());
        assert(packed(vals.drop_first(), w) =~= Seq::<u8>::empty());
        assert(vals.last() == vals[0]);
        assert(packed(vals, w) =~= packed(vals.drop_last(), w) + le_bytes(vals.last(), w));
    } else {
        lemma_packed_snoc(vals.drop_first(), w);
        assert(vals.drop_first().drop_last() =~= vals.drop_last().drop_first());
        assert(vals.drop_first().last() == vals.last());
        assert(vals.drop_last()[0] == vals[0]);
        assert(packed(vals, w) =~= packed(vals.drop_last(), w) + le_bytes(vals.last(), w));
    }
}

/// The `n` values a packed blob holds, each read from `w` little-endian
/// bytes.
pub open spec fn unpack(b: Seq<u8>, w: nat, n: nat) -> Seq<nat>
    decreases n,
{
    if n == 0 {
        Seq::empty()
    } else {
        seq![le_val(b.take(w as int))] + unpack(b.skip(w as int), w, (n - 1) as nat)
    }
}

/// Each unpacked value is the reading of its own `w`-byte group.
pub proof fn lemma_unpack_index(b: Seq<u8>, w: nat, n: nat, i: int)
    requires
        w >= 1,
        n * w <= b.len(),
        0 <= i < n,
    ensures
        unpack(b, w, n).len() == n,
        unpack(b, w, n)[i] == le_val(b.subrange(i * w, i * w + w)),
    decreases n,
{
    lemma_unpack_len(b, w, n);
    assert(w <= b.len()) by (nonlinear_arith)
        requires
            n * w <= b.len(),
            n >= 1,
            w >= 1,
    ;
    if i == 0 {
        assert(b.take(w as int) =~= b.subrange(0, w as int));
    } else {
        assert((n - 1) * w <= b.skip(w as int).len()) by (nonlinear_arith)
            requires
                n * w <= b.len(),
                b.skip(w as int).len() == b.len() - w,
                n >= 1,
                w >= 1,
        ;
        lemma_unpack_index(b.skip(w as int), w, (n - 1) as nat, i - 1);
        assert(b.skip(w as int).subrange((i - 1) * w, (i - 1) * w + w) =~= b.subrange(
            i * w,
            i * w + w,
        )) by {
            assert((i - 1) * w + w == i * w) by (nonlinear_arith);
            assert(i * w + w <= b.len()) by (nonlinear_arith)
                requires
                    n * w <= b.len(),
                    i < n,
                    w >= 1,
            ;
        };
    }
}

pub proof fn lemma_unpack_len(b: Seq<u8>, w: nat, n: nat)
    ensures
        unpack(b, w, n).len() == n,
    decreases n,
{
    if n > 0 {
        lemma_unpack_len(b.skip(w as int), w, (n - 1) as nat);
    }
}

/// The unsigned reading of a signed value's two's-complement bits.
pub open spec fn tc_i8(x: i8) -> nat {
    if x >= 0 {
        x as nat
    } else {
        (x + 0x100) as nat
    }
}

pub open spec fn tc_i16(x: i16) -> nat {
    if x >= 0 {
        x as nat
    } else {
        (x + 0x1_0000) as nat
    }
}

pub open spec fn tc_i32(x: i32) -> nat {
    if x >= 0 {
        x as nat
    } else {
        (x + 0x1_0000_0000) as nat
    }
}

pub open spec fn tc_i64(x: i64) -> nat {
    if x >= 0 {
        x as nat
    } else {
        (x + 0x1_0000_0000_0000_0000) as nat
    }
}

pub open spec fn tc_i128(x: i128) -> nat {
    if x >= 0 {
        x as nat
    } else {
        (x + 0x1_0000_0000_0000_0000_0000_0000_0000_0000) as nat
    }
}

/// The values of a slice as mathematical integers, for the packed
/// fixed-width blob forms.
pub open spec fn nats_bool(s: Seq<bool>) -> Seq<nat> {
    s.map_values(|x: bool| if x { 1nat } else { 0nat })
}

pub open spec fn nats_char(s: Seq<char>) -> Seq<nat> {
    s.map_values(|x: char| (x as u32) as nat)
}

pub open spec fn nats_u16(s: Seq<u16>) -> Seq<nat> {
    s.map_values(|x: u16| x as nat)
}

pub open spec fn nats_u32(s: Seq<u32>) -> Seq<nat> {
    s.map_values(|x: u32| x as nat)
}

pub open spec fn nats_u64(s: Seq<u64>) -> Seq<nat> {
    s.map_values(|x: u64| x as nat)
}

pub open spec fn nats_u128(s: Seq<u128>) -> Seq<nat> {
    s.map_values(|x: u128| x as nat)
}

pub open spec fn nats_i8(s: Seq<i8>) -> Seq<nat> {
    s.map_values(|x: i8| tc_i8(x))
}

pub open spec fn nats_i16(s: Seq<i16>) -> Seq<nat> {
    s.map_values(|x: i16| tc_i16(x))
}

pub open spec fn nats_i32(s: Seq<i32>) -> Seq<nat> {
    s.map_values(|x: i32| tc_i32(x))
}

pub open spec fn nats_i64(s: Seq<i64>) -> Seq<nat> {
    s.map_values(|x: i64| tc_i64(x))
}

pub open spec fn nats_i128(s: Seq<i128>) -> Seq<nat> {
    s.map_values(|x: i128| tc_i128(x))
}

/// The wire encoder: owns its sink and renders every protocol event as bytes.
pub struct Encoder {
    pub writer: Writer,
}

impl Encoder {
    /// Everything encoded so far.
    pub open spec fn bytes(&self) -> Seq<u8> {
        self.writer.bytes()
    }

    pub fn new() -> (e: Encoder)
        ensures
            e.bytes() == Seq::<u8>::empty(),
    {
        Encoder { writer: Writer::new() }
    }

    /// A bare scalar, given as its little-endian bytes of any fixed width.
    pub fn encode_uint(&mut self, bytes: &[u8])
        requires
            bytes@.len() <= 16,
        ensures
            final(self).bytes() == old(self).bytes() + uint_bytes(le_val(bytes@) as u128),
    {
        let f = VarIntLen::from_value_slice(bytes);
        f.write(&mut self.writer);
    }

    /// A bare scalar given directly.
    pub fn encode_value(&mut self, value: u128)
        ensures
            final(self).bytes() == old(self).bytes() + uint_bytes(value),
    {
        let f = VarIntLen::from_value_u128(value);
        f.write(&mut self.writer);
    }

    pub fn encode_bool(&mut self, value: &bool)
        ensures
            final(self).bytes() == old(self).bytes() + uint_bytes(
                if *value {
                    1u128
                } else {
                    0u128
                },
            ),
    {
        self.encode_value(if *value {
            1
        } else {
            0
        });
    }

    pub fn encode_char(&mut self, value: &char)
        ensures
            final(self).bytes() == old(self).bytes() + uint_bytes(*value as u128),
    {
        self.encode_value(*value as u128);
    }

    pub fn encode_u8(&mut self, value: &u8)
        ensures
            final(self).bytes() == old(self).bytes() + uint_bytes(*value as u128),
    {
        self.encode_value(*value as u128);
    }

    pub fn encode_u16(&mut self, value: &u16)
        ensures
            final(self).bytes() == old(self).bytes() + uint_bytes(*value as u128),
    {
        self.encode_value(*value as u128);
    }

    pub fn encode_u32(&mut self, value: &u32)
        ensures
            final(self).bytes() == old(self).bytes() + uint_bytes(*value as u128),
    {
        self.encode_value(*value as u128);
    }

    pub fn encode_u64(&mut self, value: &u64)
        ensures
            final(self).bytes() == old(self).bytes() + uint_bytes(*value as u128),
    {
        self.encode_value(*value as u128);
    }

    pub fn encode_u128(&mut self, value: &u128)
        ensures
            final(self).bytes() == old(self).bytes() + uint_bytes(*value),
    {
        self.encode_value(*value);
    }

    pub fn encode_i8(&mut self, value: &i8)
        ensures
            final(self).bytes() == old(self).bytes() + uint_bytes(zigzag_of_i8(*value) as u128),
    {
        self.encode_value(zigzag_i8(*value) as u128);
    }

    pub fn encode_i16(&mut self, value: &i16)
        ensures
            final(self).bytes() == old(self).bytes() + uint_bytes(zigzag_of_i16(*value) as u128),
    {
        self.encode_value(zigzag_i16(*value) as u128);
    }

    pub fn encode_i32(&mut self, value: &i32)
        ensures
            final(self).bytes() == old(self).bytes() + uint_bytes(zigzag_of_i32(*value) as u128),
    {
        self.encode_value(zigzag_i32(*value) as u128);
    }

    pub fn encode_i64(&mut self, value: &i64)
        ensures
            final(self).bytes() == old(self).bytes() + uint_bytes(zigzag_of_i64(*value) as u128),
    {
        self.encode_value(zigzag_i64(*value) as u128);
    }

    pub fn encode_i128(&mut self, value: &i128)
        ensures
            final(self).bytes() == old(self).bytes() + uint_bytes(zigzag_of_i128(*value) as u128),
    {
        self.encode_value(zigzag_i128(*value) as u128);
    }

    /// A raw byte blob: size frame, then the bytes.
    pub fn encode_binary(&mut self, value: &[u8])
        ensures
            final(self).bytes() == old(self).bytes() + blob_bytes(value@),
    {
        self.encode_bytes_begin(value.len());
        self.encode_bytes_payload(value);
        self.encode_bytes_end();
    }

    /// A string: its UTF-8 bytes as a blob.
    pub fn encode_string(&mut self, value: &str)
        ensures
            final(self).bytes() == old(self).bytes() + blob_bytes(
                vstd::utf8::encode_utf8(value@),
            ),
    {
        self.encode_binary(value.as_bytes());
    }

    /// Opens a sequence of `len` self-delimiting elements.
    pub fn encode_seq_begin(&mut self, len: usize)
        requires
            len <= u32::MAX,
        ensures
            final(self).bytes() == old(self).bytes() + frame_bytes(len_frame(len as u32)),
    {
        let f = VarIntLen::from_struct_len(len as u32);
        f.write(&mut self.writer);
    }

    pub fn encode_seq_end(&mut self)
        ensures
            *final(self) == *old(self),
    {
    }

    /// Opens a record with `len` declared fields.
    pub fn encode_struct_begin(&mut self, len: usize, struct_name: Option<&str>)
        requires
            len <= u32::MAX,
        ensures
            final(self).bytes() == old(self).bytes() + frame_bytes(len_frame(len as u32)),
    {
        let f = VarIntLen::from_struct_len(len as u32);
        f.write(&mut self.writer);
    }

    pub fn encode_struct_end(&mut self)
        ensures
            *final(self) == *old(self),
    {
    }

    /// Opens a union value: a unit variant travels as a plain value, a
    /// variant with a payload record as a tag frame.
    pub fn encode_enum_begin(
        &mut self,
        enum_tag: u32,
        len: usize,
        enum_name: &str,
        variant_name: &str,
    )
        requires
            len <= 1,
        ensures
            final(self).bytes() == old(self).bytes() + enum_head_bytes(enum_tag, len as nat),
    {
        let f = if len == 0 {
            VarIntLen::from_value_u32(enum_tag)
        } else {
            VarIntLen::from_enum_tag(enum_tag)
        };
        f.write(&mut self.writer);
    }

    pub fn encode_enum_end(&mut self)
        ensures
            *final(self) == *old(self),
    {
    }

    /// A hook for labelled backends; the binary wire writes nothing.
    pub fn encode_elem_begin(&mut self, index: usize, elem_name: Option<&str>)
        ensures
            *final(self) == *old(self),
    {
    }

    pub fn encode_elem_end(&mut self)
        ensures
            *final(self) == *old(self),
    {
    }

    /// Announces a blob of `size` bytes, to be paid out through
    /// [`Self::encode_bytes_payload`].
    pub fn encode_bytes_begin(&mut self, size: usize)
        ensures
            final(self).bytes() == old(self).bytes() + frame_bytes(size_frame(size as u64)),
    {
        let f = VarIntLen::from_byte_size(size as u64);
        f.write(&mut self.writer);
    }

    /// Raw blob bytes, exactly as given.
    pub fn encode_bytes_payload(&mut self, value: &[u8])
        ensures
            final(self).bytes() == old(self).bytes() + value@,
    {
        self.writer.write(value);
    }

    pub fn encode_bytes_end(&mut self)
        ensures
            *final(self) == *old(self),
    {
    }


    /// A whole slice as one blob of fixed-width little-endian elements.
    pub fn encode_vec_bool(&mut self, values: &[bool])
        requires
            values@.len() * 1 <= usize::MAX,
        ensures
            final(self).bytes() == old(self).bytes() + blob_bytes(packed(nats_bool(values@), 1)),
    {
        let ghost vals = nats_bool(values@);
        self.encode_bytes_begin(values.len() * 1);
        let ghost hdr = frame_bytes(size_frame((values@.len() * 1) as u64));
        let mut i: usize = 0;
        while i < values.len()
            invariant
                i <= values@.len(),
                vals == nats_bool(values@),
                vals.len() == values@.len(),
                values@.len() * 1 <= usize::MAX,
                hdr == frame_bytes(size_frame((values@.len() * 1) as u64)),
                self.bytes() == old(self).bytes() + hdr + packed(vals.take(i as int), 1),
            decreases values@.len() - i,
        {
            if values[i] {
                self.encode_le(1, 1);
            } else {
                self.encode_le(0, 1);
            }
            proof {
                lemma_packed_step(vals, 1, i as int);
                assert(self.bytes() =~= old(self).bytes() + hdr + packed(vals.take(i + 1), 1));
            }
            i = i + 1;
        }
        proof {
            assert(vals.take(values@.len() as int) =~= vals);
            lemma_packed_len(vals, 1);
            assert(old(self).bytes() + hdr + packed(vals, 1) =~= old(self).bytes() + blob_bytes(
                packed(vals, 1),
            ));
        }
    }

    /// A whole slice as one blob of fixed-width little-endian elements.
    pub fn encode_vec_char(&mut self, values: &[char])
        requires
            values@.len() * 4 <= usize::MAX,
        ensures
            final(self).bytes() == old(self).bytes() + blob_bytes(packed(nats_char(values@), 4)),
    {
        let ghost vals = nats_char(values@);
        self.encode_bytes_begin(values.len() * 4);
        let ghost hdr = frame_bytes(size_frame((values@.len() * 4) as u64));
        let mut i: usize = 0;
        while i < values.len()
            invariant
                i <= values@.len(),
                vals == nats_char(values@),
                vals.len() == values@.len(),
                values@.len() * 4 <= usize::MAX,
                hdr == frame_bytes(size_frame((values@.len() * 4) as u64)),
                self.bytes() == old(self).bytes() + hdr + packed(vals.take(i as int), 4),
            decreases values@.len() - i,
        {
            self.encode_le(values[i] as u32 as u128, 4);
            proof {
                lemma_packed_step(vals, 4, i as int);
                assert(self.bytes() =~= old(self).bytes() + hdr + packed(vals.take(i + 1), 4));
            }
            i = i + 1;
        }
        proof {
            assert(vals.take(values@.len() as int) =~= vals);
            lemma_packed_len(vals, 4);
            assert(old(self).bytes() + hdr + packed(vals, 4) =~= old(self).bytes() + blob_bytes(
                packed(vals, 4),
            ));
        }
    }

    /// A byte slice as one blob: same wire form as a binary value.
    pub fn encode_vec_u8(&mut self, values: &[u8])
        ensures
            final(self).bytes() == old(self).bytes() + blob_bytes(values@),
    {
        self.encode_binary(values);
    }

    /// A whole slice as one blob of fixed-width little-endian elements.
    pub fn encode_vec_u16(&mut self, values: &[u16])
        requires
            values@.len() * 2 <= usize::MAX,
        ensures
            final(self).bytes() == old(self).bytes() + blob_bytes(packed(nats_u16(values@), 2)),
    {
        let ghost vals = nats_u16(values@);
        self.encode_bytes_begin(values.len() * 2);
        let ghost hdr = frame_bytes(size_frame((values@.len() * 2) as u64));
        let mut i: usize = 0;
        while i < values.len()
            invariant
                i <= values@.len(),
                vals == nats_u16(values@),
                vals.len() == values@.len(),
                values@.len() * 2 <= usize::MAX,
                hdr == frame_bytes(size_frame((values@.len() * 2) as u64)),
                self.bytes() == old(self).bytes() + hdr + packed(vals.take(i as int), 2),
            decreases values@.len() - i,
        {
            self.encode_le(values[i] as u128, 2);
            proof {
                lemma_packed_step(vals, 2, i as int);
                assert(self.bytes() =~= old(self).bytes() + hdr + packed(vals.take(i + 1), 2));
            }
            i = i + 1;
        }
        proof {
            assert(vals.take(values@.len() as int) =~= vals);
            lemma_packed_len(vals, 2);
            assert(old(self).bytes() + hdr + packed(vals, 2) =~= old(self).bytes() + blob_bytes(
                packed(vals, 2),
            ));
        }
    }

    /// A whole slice as one blob of fixed-width little-endian elements.
    pub fn encode_vec_u32(&mut self, values: &[u32])
        requires
            values@.len() * 4 <= usize::MAX,
        ensures
            final(self).bytes() == old(self).bytes() + blob_bytes(packed(nats_u32(values@), 4)),
    {
        let ghost vals = nats_u32(values@);
        self.encode_bytes_begin(values.len() * 4);
        let ghost hdr = frame_bytes(size_frame((values@.len() * 4) as u64));
        let mut i: usize = 0;
        while i < values.len()
            invariant
                i <= values@.len(),
                vals == nats_u32(values@),
                vals.len() == values@.len(),
                values@.len() * 4 <= usize::MAX,
                hdr == frame_bytes(size_frame((values@.len() * 4) as u64)),
                self.bytes() == old(self).bytes() + hdr + packed(vals.take(i as int), 4),
            decreases values@.len() - i,
        {
            self.encode_le(values[i] as u128, 4);
            proof {
                lemma_packed_step(vals, 4, i as int);
                assert(self.bytes() =~= old(self).bytes() + hdr + packed(vals.take(i + 1), 4));
            }
            i = i + 1;
        }
        proof {
            assert(vals.take(values@.len() as int) =~= vals);
            lemma_packed_len(vals, 4);
            assert(old(self).bytes() + hdr + packed(vals, 4) =~= old(self).bytes() + blob_bytes(
                packed(vals, 4),
            ));
        }
    }

    /// A whole slice as one blob of fixed-width little-endian elements.
    pub fn encode_vec_u64(&mut self, values: &[u64])
        requires
            values@.len() * 8 <= usize::MAX,
        ensures
            final(self).bytes() == old(self).bytes() + blob_bytes(packed(nats_u64(values@), 8)),
    {
        let ghost vals = nats_u64(values@);
        self.encode_bytes_begin(values.len() * 8);
        let ghost hdr = frame_bytes(size_frame((values@.len() * 8) as u64));
        let mut i: usize = 0;
        while i < values.len()
            invariant
                i <= values@.len(),
                vals == nats_u64(values@),
                vals.len() == values@.len(),
                values@.len() * 8 <= usize::MAX,
                hdr == frame_bytes(size_frame((values@.len() * 8) as u64)),
                self.bytes() == old(self).bytes() + hdr + packed(vals.take(i as int), 8),
            decreases values@.len() - i,
        {
            self.encode_le(values[i] as u128, 8);
            proof {
                lemma_packed_step(vals, 8, i as int);
                assert(self.bytes() =~= old(self).bytes() + hdr + packed(vals.take(i + 1), 8));
            }
            i = i + 1;
        }
        proof {
            assert(vals.take(values@.len() as int) =~= vals);
            lemma_packed_len(vals, 8);
            assert(old(self).bytes() + hdr + packed(vals, 8) =~= old(self).bytes() + blob_bytes(
                packed(vals, 8),
            ));
        }
    }

    /// A whole slice as one blob of fixed-width little-endian elements.
    pub fn encode_vec_u128(&mut self, values: &[u128])
        requires
            values@.len() * 16 <= usize::MAX,
        ensures
            final(self).bytes() == old(self).bytes() + blob_bytes(packed(nats_u128(values@), 16)),
    {
        let ghost vals = nats_u128(values@);
        self.encode_bytes_begin(values.len() * 16);
        let ghost hdr = frame_bytes(size_frame((values@.len() * 16) as u64));
        let mut i: usize = 0;
        while i < values.len()
            invariant
                i <= values@.len(),
                vals == nats_u128(values@),
                vals.len() == values@.len(),
                values@.len() * 16 <= usize::MAX,
                hdr == frame_bytes(size_frame((values@.len() * 16) as u64)),
                self.bytes() == old(self).bytes() + hdr + packed(vals.take(i as int), 16),
            decreases values@.len() - i,
        {
            self.encode_le(values[i] as u128, 16);
            proof {
                lemma_packed_step(vals, 16, i as int);
                assert(self.bytes() =~= old(self).bytes() + hdr + packed(vals.take(i + 1), 16));
            }
            i = i + 1;
        }
        proof {
            assert(vals.take(values@.len() as int) =~= vals);
            lemma_packed_len(vals, 16);
            assert(old(self).bytes() + hdr + packed(vals, 16) =~= old(self).bytes() + blob_bytes(
                packed(vals, 16),
            ));
        }
    }

    /// A whole slice as one blob of fixed-width little-endian elements.
    pub fn encode_vec_i8(&mut self, values: &[i8])
        requires
            values@.len() * 1 <= usize::MAX,
        ensures
            final(self).bytes() == old(self).bytes() + blob_bytes(packed(nats_i8(values@), 1)),
    {
        let ghost vals = nats_i8(values@);
        self.encode_bytes_begin(values.len() * 1);
        let ghost hdr = frame_bytes(size_frame((values@.len() * 1) as u64));
        let mut i: usize = 0;
        while i < values.len()
            invariant
                i <= values@.len(),
                vals == nats_i8(values@),
                vals.len() == values@.len(),
                values@.len() * 1 <= usize::MAX,
                hdr == frame_bytes(size_frame((values@.len() * 1) as u64)),
                self.bytes() == old(self).bytes() + hdr + packed(vals.take(i as int), 1),
            decreases values@.len() - i,
        {
            let x = values[i];
            let u: u128 = if x >= 0 {
                x as u128
            } else {
                ((x as i16) + 0x100) as u128
            };
            self.encode_le(u, 1);
            proof {
                lemma_packed_step(vals, 1, i as int);
                assert(self.bytes() =~= old(self).bytes() + hdr + packed(vals.take(i + 1), 1));
            }
            i = i + 1;
        }
        proof {
            assert(vals.take(values@.len() as int) =~= vals);
            lemma_packed_len(vals, 1);
            assert(old(self).bytes() + hdr + packed(vals, 1) =~= old(self).bytes() + blob_bytes(
                packed(vals, 1),
            ));
        }
    }

    /// A whole slice as one blob of fixed-width little-endian elements.
    pub fn encode_vec_i16(&mut self, values: &[i16])
        requires
            values@.len() * 2 <= usize::MAX,
        ensures
            final(self).bytes() == old(self).bytes() + blob_bytes(packed(nats_i16(values@), 2)),
    {
        let ghost vals = nats_i16(values@);
        self.encode_bytes_begin(values.len() * 2);
        let ghost hdr = frame_bytes(size_frame((values@.len() * 2) as u64));
        let mut i: usize = 0;
        while i < values.len()
            invariant
                i <= values@.len(),
                vals == nats_i16(values@),
                vals.len() == values@.len(),
                values@.len() * 2 <= usize::MAX,
                hdr == frame_bytes(size_frame((values@.len() * 2) as u64)),
                self.bytes() == old(self).bytes() + hdr + packed(vals.take(i as int), 2),
            decreases values@.len() - i,
        {
            let x = values[i];
            let u: u128 = if x >= 0 {
                x as u128
            } else {
                ((x as i32) + 0x1_0000) as u128
            };
            self.encode_le(u, 2);
            proof {
                lemma_packed_step(vals, 2, i as int);
                assert(self.bytes() =~= old(self).bytes() + hdr + packed(vals.take(i + 1), 2));
            }
            i = i + 1;
        }
        proof {
            assert(vals.take(values@.len() as int) =~= vals);
            lemma_packed_len(vals, 2);
            assert(old(self).bytes() + hdr + packed(vals, 2) =~= old(self).bytes() + blob_bytes(
                packed(vals, 2),
            ));
        }
    }

    /// A whole slice as one blob of fixed-width little-endian elements.
    pub fn encode_vec_i32(&mut self, values: &[i32])
        requires
            values@.len() * 4 <= usize::MAX,
        ensures
            final(self).bytes() == old(self).bytes() + blob_bytes(packed(nats_i32(values@), 4)),
    {
        let ghost vals = nats_i32(values@);
        self.encode_bytes_begin(values.len() * 4);
        let ghost hdr = frame_bytes(size_frame((values@.len() * 4) as u64));
        let mut i: usize = 0;
        while i < values.len()
            invariant
                i <= values@.len(),
                vals == nats_i32(values@),
                vals.len() == values@.len(),
                values@.len() * 4 <= usize::MAX,
                hdr == frame_bytes(size_frame((values@.len() * 4) as u64)),
                self.bytes() == old(self).bytes() + hdr + packed(vals.take(i as int), 4),
            decreases values@.len() - i,
        {
            let x = values[i];
            let u: u128 = if x >= 0 {
                x as u128
            } else {
                ((x as i64) + 0x1_0000_0000) as u128
            };
            self.encode_le(u, 4);
            proof {
                lemma_packed_step(vals, 4, i as int);
                assert(self.bytes() =~= old(self).bytes() + hdr + packed(vals.take(i + 1), 4));
            }
            i = i + 1;
        }
        proof {
            assert(vals.take(values@.len() as int) =~= vals);
            lemma_packed_len(vals, 4);
            assert(old(self).bytes() + hdr + packed(vals, 4) =~= old(self).bytes() + blob_bytes(
                packed(vals, 4),
            ));
        }
    }

    /// A whole slice as one blob of fixed-width little-endian elements.
    pub fn encode_vec_i64(&mut self, values: &[i64])
        requires
            values@.len() * 8 <= usize::MAX,
        ensures
            final(self).bytes() == old(self).bytes() + blob_bytes(packed(nats_i64(values@), 8)),
    {
        let ghost vals = nats_i64(values@);
        self.encode_bytes_begin(values.len() * 8);
        let ghost hdr = frame_bytes(size_frame((values@.len() * 8) as u64));
        let mut i: usize = 0;
        while i < values.len()
            invariant
                i <= values@.len(),
                vals == nats_i64(values@),
                vals.len() == values@.len(),
                values@.len() * 8 <= usize::MAX,
                hdr == frame_bytes(size_frame((values@.len() * 8) as u64)),
                self.bytes() == old(self).bytes() + hdr + packed(vals.take(i as int), 8),
            decreases values@.len() - i,
        {
            let x = values[i];
            let u: u128 = if x >= 0 {
                x as u128
            } else {
                ((x as i128) + 0x1_0000_0000_0000_0000) as u128
            };
            self.encode_le(u, 8);
            proof {
                lemma_packed_step(vals, 8, i as int);
                assert(self.bytes() =~= old(self).bytes() + hdr + packed(vals.take(i + 1), 8));
            }
            i = i + 1;
        }
        proof {
            assert(vals.take(values@.len() as int) =~= vals);
            lemma_packed_len(vals, 8);
            assert(old(self).bytes() + hdr + packed(vals, 8) =~= old(self).bytes() + blob_bytes(
                packed(vals, 8),
            ));
        }
    }

    /// A whole slice as one blob of fixed-width little-endian elements.
    pub fn encode_vec_i128(&mut self, values: &[i128])
        requires
            values@.len() * 16 <= usize::MAX,
        ensures
            final(self).bytes() == old(self).bytes() + blob_bytes(packed(nats_i128(values@), 16)),
    {
        let ghost vals = nats_i128(values@);
        self.encode_bytes_begin(values.len() * 16);
        let ghost hdr = frame_bytes(size_frame((values@.len() * 16) as u64));
        let mut i: usize = 0;
        while i < values.len()
            invariant
                i <= values@.len(),
                vals == nats_i128(values@),
                vals.len() == values@.len(),
                values@.len() * 16 <= usize::MAX,
                hdr == frame_bytes(size_frame((values@.len() * 16) as u64)),
                self.bytes() == old(self).bytes() + hdr + packed(vals.take(i as int), 16),
            decreases values@.len() - i,
        {
            let x = values[i];
            let u: u128 = if x >= 0 {
                x as u128
            } else {
                u128::MAX - ((-(x + 1)) as u128)
            };
            self.encode_le(u, 16);
            proof {
                lemma_packed_step(vals, 16, i as int);
                assert(self.bytes() =~= old(self).bytes() + hdr + packed(vals.take(i + 1), 16));
            }
            i = i + 1;
        }
        proof {
            assert(vals.take(values@.len() as int) =~= vals);
            lemma_packed_len(vals, 16);
            assert(old(self).bytes() + hdr + packed(vals, 16) =~= old(self).bytes() + blob_bytes(
                packed(vals, 16),
            ));
        }
    }

    /// Writes `w` little-endian bytes of `v` as raw payload.
    fn encode_le(&mut self, v: u128, w: usize)
        requires
            w <= 16,
        ensures
            final(self).bytes() == old(self).bytes() + le_bytes(v as nat, w as nat),
    {
        proof {
            assert(pow256(0) == 1);
            assert((v as nat) / pow256(0) == v as nat);
            assert(le_bytes(v as nat, 0) =~= Seq::<u8>::empty());
            assert(self.bytes() =~= old(self).bytes() + le_bytes(v as nat, 0));
        }
        let mut t = v;
        let mut i: usize = 0;
        while i < w
            invariant
                i <= w,
                w <= 16,
                t as nat == (v as nat) / pow256(i as nat),
                self.bytes() == old(self).bytes() + le_bytes(v as nat, i as nat),
            decreases w - i,
        {
            self.writer.write_byte((t % 256) as u8);
            proof {
                crate::bytes::lemma_le_bytes_snoc(v as nat, i as nat);
                crate::bytes::lemma_pow256_pos(i as nat);
                assert((t as nat) / 256 == (v as nat) / pow256((i + 1) as nat)) by {
                    vstd::arithmetic::div_mod::lemma_div_denominator(
                        v as int,
                        pow256(i as nat) as int,
                        256,
                    );
                    assert(pow256(i as nat) * 256 == pow256((i + 1) as nat));
                };
            }
            t = t / 256;
            i = i + 1;
        }
    }

    /// Opens a fixed-size array: same wire form as a sequence.
    pub fn encode_arr_begin(&mut self, len: usize)
        requires
            len <= u32::MAX,
        ensures
            final(self).bytes() == old(self).bytes() + frame_bytes(len_frame(len as u32)),
    {
        self.encode_vec_begin(len);
    }

    pub fn encode_arr_end(&mut self)
        ensures
            *final(self) == *old(self),
    {
        self.encode_vec_end();
    }

    /// Opens a dynamic array: same wire form as a sequence.
    pub fn encode_vec_begin(&mut self, len: usize)
        requires
            len <= u32::MAX,
        ensures
            final(self).bytes() == old(self).bytes() + frame_bytes(len_frame(len as u32)),
    {
        self.encode_seq_begin(len);
    }

    pub fn encode_vec_end(&mut self)
        ensures
            *final(self) == *old(self),
    {
        self.encode_seq_end();
    }
}

/// What reading a bare scalar resolves from the head of a stream.
pub open spec fn spec_read_uint(b: Seq<u8>) -> Result<(u128, nat), WireError> {
    match parse_frame(b) {
        Option::None => Err(WireError::Eof),
        Option::Some((f, n)) => match f {
            VarIntLen::Zero => Ok((0u128, n)),
            VarIntLen::Value(v) => Ok((v, n)),
            _ => Err(WireError::BadHeader),
        },
    }
}

/// What reading a blob size resolves.
pub open spec fn spec_read_size(b: Seq<u8>) -> Result<(u64, nat), WireError> {
    match parse_frame(b) {
        Option::None => Err(WireError::Eof),
        Option::Some((f, n)) => match f {
            VarIntLen::Zero => Ok((0u64, n)),
            VarIntLen::ByteSize(s) => Ok((s, n)),
            _ => Err(WireError::BadHeader),
        },
    }
}

/// What reading a record or sequence length resolves.
pub open spec fn spec_read_len(b: Seq<u8>) -> Result<(u32, nat), WireError> {
    match parse_frame(b) {
        Option::None => Err(WireError::Eof),
        Option::Some((f, n)) => match f {
            VarIntLen::Zero => Ok((0u32, n)),
            VarIntLen::StructLen(m) => Ok((m, n)),
            _ => Err(WireError::BadHeader),
        },
    }
}

/// What reading a union head resolves: the tag and how many payload records
/// follow (one after a tag frame, none after a plain value).
pub open spec fn spec_read_enum_head(b: Seq<u8>) -> Result<((u32, usize), nat), WireError> {
    match parse_frame(b) {
        Option::None => Err(WireError::Eof),
        Option::Some((f, n)) => match f {
            VarIntLen::Zero => Ok(((0u32, 0usize), n)),
            VarIntLen::Value(v) => Ok((((v % 0x1_0000_0000) as u32, 0usize), n)),
            VarIntLen::EnumTag(t) => Ok(((t, 1usize), n)),
            _ => Err(WireError::BadHeader),
        },
    }
}

/// What reading a whole byte blob resolves: its bytes and the stream
/// footprint of size frame plus payload.
pub open spec fn spec_read_blob(b: Seq<u8>) -> Result<(Seq<u8>, nat), WireError> {
    match spec_read_size(b) {
        Err(e) => Err(e),
        Ok((s, n)) => if b.len() < n + s {
            Err(WireError::Eof)
        } else {
            Ok((b.subrange(n as int, (n + s) as int), (n + s) as nat))
        },
    }
}

/// How many bytes skipping `n` self-delimiting values consumes.  A value is
/// one frame plus what it announces: blob bytes after `ByteSize`, `k` more
/// values after `StructLen(k)`, one more value after `EnumTag`.
pub open spec fn spec_skip(b: Seq<u8>, n: nat) -> Result<nat, WireError>
    decreases b.len(), n,
{
    if n == 0 {
        Ok(0nat)
    } else {
        match parse_frame(b) {
            Option::None => Err(WireError::Eof),
            Option::Some((f, c)) => {
                let (consumed, queue) = match f {
                    VarIntLen::Zero => (c, (n - 1) as nat),
                    VarIntLen::Value(_) => (c, (n - 1) as nat),
                    VarIntLen::EnumTag(_) => (c, n),
                    VarIntLen::StructLen(k) => (c, (n - 1 + k) as nat),
                    VarIntLen::ByteSize(s) => ((c + s) as nat, (n - 1) as nat),
                };
                if consumed > b.len() {
                    Err(WireError::Eof)
                } else {
                    match spec_skip(b.skip(consumed as int), queue) {
                        Ok(m) => Ok((consumed + m) as nat),
                        Err(e) => Err(e),
                    }
                }
            },
        }
    }
}

/// Relies on `char::from_u32`: yields the character for exactly the Unicode
/// scalar values (not a surrogate, at most `0x10FFFF`), the one with that
/// code point.
#[verifier::external_body]
fn char_from_u32(u: u32) -> (r: Option<char>)
    ensures
        match r {
            Some(c) => vstd::utf8::is_scalar(u) && c as u32 == u,
            None => !vstd::utf8::is_scalar(u),
        },
{
    char::from_u32(u)
}

/// Relies on `String::from_utf8`: succeeds exactly on valid UTF-8 and then
/// yields the string those bytes spell.
#[verifier::external_body]
fn string_from_utf8(bytes: Vec<u8>) -> (r: Option<String>)
    ensures
        match r {
            Some(s) => vstd::utf8::valid_utf8(bytes@) && s@ == vstd::utf8::decode_utf8(bytes@),
            None => !vstd::utf8::valid_utf8(bytes@),
        },
{
    String::from_utf8(bytes).ok()
}

/// The wire decoder: owns its source and resolves every protocol event from
/// the frames at the cursor.
pub struct Decoder {
    pub reader: Reader,
}

impl Decoder {
    pub open spec fn wf(&self) -> bool {
        self.reader.wf()
    }

    /// The bytes not yet decoded.
    pub open spec fn remaining(&self) -> Seq<u8> {
        self.reader.remaining()
    }

    pub fn new(data: Vec<u8>) -> (d: Decoder)
        ensures
            d.wf(),
            d.remaining() == data@,
    {
        Decoder { reader: Reader::new(data) }
    }

    /// Reads one scalar frame: `Zero` or `Value`, anything else is a
    /// category mismatch.
    fn read_value(&mut self) -> (r: Result<(u128, usize), DecodeError>)
        requires
            old(self).wf(),
        ensures
            final(self).wf(),
            final(self).reader.data == old(self).reader.data,
            final(self).reader.pos >= old(self).reader.pos,
            match r {
                Ok((v, n)) => {
                    &&& spec_read_uint(old(self).remaining()) == Ok::<_, WireError>((v, n as nat))
                    &&& final(self).reader.pos == old(self).reader.pos + n
                },
                Err(e) => spec_read_uint(old(self).remaining()) == Err::<(u128, nat), _>(e@),
            },
    {
        match VarIntLen::from_reader(&mut self.reader) {
            Err(e) => Err(e),
            Ok((VarIntLen::Zero, n)) => Ok((0, n)),
            Ok((VarIntLen::Value(v), n)) => Ok((v, n)),
            Ok(_) => Err(DecodeError::BadHeader),
        }
    }

    /// A bare scalar as `len` little-endian bytes, zero-padded: the width the
    /// caller's type expects, whatever width was on the wire.
    pub fn decode_uint(&mut self, len: usize) -> (r: Result<Vec<u8>, DecodeError>)
        requires
            old(self).wf(),
            len <= 16,
        ensures
            final(self).wf(),
            final(self).reader.data == old(self).reader.data,
            final(self).reader.pos >= old(self).reader.pos,
            match r {
                Ok(b) => {
                    &&& spec_read_uint(old(self).remaining()) matches Ok((v, n)) && b@ == le_bytes(
                        v as nat,
                        len as nat,
                    ) && final(self).reader.pos == old(self).reader.pos + n
                },
                Err(e) => spec_read_uint(old(self).remaining()) matches Err(we) && we == e@,
            },
    {
        let (v, _n) = match self.read_value() {
            Ok(p) => p,
            Err(e) => {
                return Err(e);
            },
        };
        Ok(le_bytes_vec(v, len))
    }

    pub fn decode_bool(&mut self) -> (r: Result<bool, DecodeError>)
        requires
            old(self).wf(),
        ensures
            final(self).wf(),
            final(self).reader.data == old(self).reader.data,
            final(self).reader.pos >= old(self).reader.pos,
            match r {
                Ok(x) => {
                    &&& spec_read_uint(old(self).remaining()) matches Ok((v, n)) && x == (v % 0x100
                        != 0) && final(self).reader.pos == old(self).reader.pos + n
                },
                Err(e) => spec_read_uint(old(self).remaining()) matches Err(we) && we == e@,
            },
    {
        match self.decode_u8() {
            Ok(x) => Ok(x != 0),
            Err(e) => Err(e),
        }
    }

    /// A character: a scalar checked to be a Unicode scalar value.
    pub fn decode_char(&mut self) -> (r: Result<char, DecodeError>)
        requires
            old(self).wf(),
        ensures
            final(self).wf(),
            final(self).reader.data == old(self).reader.data,
            final(self).reader.pos >= old(self).reader.pos,
            match r {
                Ok(c) => {
                    &&& spec_read_uint(old(self).remaining()) matches Ok((v, n)) && c as u32 == (v
                        % 0x1_0000_0000) as u32 && final(self).reader.pos == old(self).reader.pos
                        + n
                },
                Err(e) => match spec_read_uint(old(self).remaining()) {
                    Ok((v, n)) => !vstd::utf8::is_scalar((v % 0x1_0000_0000) as u32) && e@
                        == WireError::BadChar,
                    Err(we) => we == e@,
                },
            },
    {
        let u = match self.decode_u32() {
            Ok(u) => u,
            Err(e) => {
                return Err(e);
            },
        };
        match char_from_u32(u) {
            Some(c) => Ok(c),
            None => Err(DecodeError::BadChar),
        }
    }

    pub fn decode_u8(&mut self) -> (r: Result<u8, DecodeError>)
        requires
            old(self).wf(),
        ensures
            final(self).wf(),
            final(self).reader.data == old(self).reader.data,
            final(self).reader.pos >= old(self).reader.pos,
            match r {
                Ok(x) => {
                    &&& spec_read_uint(old(self).remaining()) matches Ok((v, n)) && x == (v
                        % 0x100) as u8 && final(self).reader.pos == old(self).reader.pos + n
                },
                Err(e) => spec_read_uint(old(self).remaining()) matches Err(we) && we == e@,
            },
    {
        match self.read_value() {
            Ok((v, _n)) => Ok((v % 0x100) as u8),
            Err(e) => Err(e),
        }
    }

    pub fn decode_u16(&mut self) -> (r: Result<u16, DecodeError>)
        requires
            old(self).wf(),
        ensures
            final(self).wf(),
            final(self).reader.data == old(self).reader.data,
            final(self).reader.pos >= old(self).reader.pos,
            match r {
                Ok(x) => {
                    &&& spec_read_uint(old(self).remaining()) matches Ok((v, n)) && x == (v
                        % 0x1_0000) as u16 && final(self).reader.pos == old(self).reader.pos + n
                },
                Err(e) => spec_read_uint(old(self).remaining()) matches Err(we) && we == e@,
            },
    {
        match self.read_value() {
            Ok((v, _n)) => Ok((v % 0x1_0000) as u16),
            Err(e) => Err(e),
        }
    }

    pub fn decode_u32(&mut self) -> (r: Result<u32, DecodeError>)
        requires
            old(self).wf(),
        ensures
            final(self).wf(),
            final(self).reader.data == old(self).reader.data,
            final(self).reader.pos >= old(self).reader.pos,
            match r {
                Ok(x) => {
                    &&& spec_read_uint(old(self).remaining()) matches Ok((v, n)) && x == (v
                        % 0x1_0000_0000) as u32 && final(self).reader.pos == old(self).reader.pos
                        + n
                },
                Err(e) => spec_read_uint(old(self).remaining()) matches Err(we) && we == e@,
            },
    {
        match self.read_value() {
            Ok((v, _n)) => Ok((v % 0x1_0000_0000) as u32),
            Err(e) => Err(e),
        }
    }

    pub fn decode_u64(&mut self) -> (r: Result<u64, DecodeError>)
        requires
            old(self).wf(),
        ensures
            final(self).wf(),
            final(self).reader.data == old(self).reader.data,
            final(self).reader.pos >= old(self).reader.pos,
            match r {
                Ok(x) => {
                    &&& spec_read_uint(old(self).remaining()) matches Ok((v, n)) && x == (v
                        % 0x1_0000_0000_0000_0000) as u64 && final(self).reader.pos == old(self).reader.pos + n
                },
                Err(e) => spec_read_uint(old(self).remaining()) matches Err(we) && we == e@,
            },
    {
        match self.read_value() {
            Ok((v, _n)) => Ok((v % 0x1_0000_0000_0000_0000) as u64),
            Err(e) => Err(e),
        }
    }

    pub fn decode_u128(&mut self) -> (r: Result<u128, DecodeError>)
        requires
            old(self).wf(),
        ensures
            final(self).wf(),
            final(self).reader.data == old(self).reader.data,
            final(self).reader.pos >= old(self).reader.pos,
            match r {
                Ok(x) => {
                    &&& spec_read_uint(old(self).remaining()) matches Ok((v, n)) && x == v && final(self).reader.pos == old(self).reader.pos + n
                },
                Err(e) => spec_read_uint(old(self).remaining()) matches Err(we) && we == e@,
            },
    {
        match self.read_value() {
            Ok((v, _n)) => Ok(v),
            Err(e) => Err(e),
        }
    }

    pub fn decode_i8(&mut self) -> (r: Result<i8, DecodeError>)
        requires
            old(self).wf(),
        ensures
            final(self).wf(),
            final(self).reader.data == old(self).reader.data,
            final(self).reader.pos >= old(self).reader.pos,
            match r {
                Ok(x) => {
                    &&& spec_read_uint(old(self).remaining()) matches Ok((v, n)) && x
                        == crate::zigzag::unzigzag_of_u8((v % 0x100) as u8) && final(self).reader.pos == old(self).reader.pos + n
                },
                Err(e) => spec_read_uint(old(self).remaining()) matches Err(we) && we == e@,
            },
    {
        match self.read_value() {
            Ok((v, _n)) => Ok(crate::zigzag::unzigzag_i8((v % 0x100) as u8)),
            Err(e) => Err(e),
        }
    }

    pub fn decode_i16(&mut self) -> (r: Result<i16, DecodeError>)
        requires
            old(self).wf(),
        ensures
            final(self).wf(),
            final(self).reader.data == old(self).reader.data,
            final(self).reader.pos >= old(self).reader.pos,
            match r {
                Ok(x) => {
                    &&& spec_read_uint(old(self).remaining()) matches Ok((v, n)) && x
                        == crate::zigzag::unzigzag_of_u16((v % 0x1_0000) as u16) && final(self).reader.pos == old(self).reader.pos + n
                },
                Err(e) => spec_read_uint(old(self).remaining()) matches Err(we) && we == e@,
            },
    {
        match self.read_value() {
            Ok((v, _n)) => Ok(crate::zigzag::unzigzag_i16((v % 0x1_0000) as u16)),
            Err(e) => Err(e),
        }
    }

    pub fn decode_i32(&mut self) -> (r: Result<i32, DecodeError>)
        requires
            old(self).wf(),
        ensures
            final(self).wf(),
            final(self).reader.data == old(self).reader.data,
            final(self).reader.pos >= old(self).reader.pos,
            match r {
                Ok(x) => {
                    &&& spec_read_uint(old(self).remaining()) matches Ok((v, n)) && x
                        == crate::zigzag::unzigzag_of_u32((v % 0x1_0000_0000) as u32) && final(self).reader.pos == old(self).reader.pos + n
                },
                Err(e) => spec_read_uint(old(self).remaining()) matches Err(we) && we == e@,
            },
    {
        match self.read_value() {
            Ok((v, _n)) => Ok(crate::zigzag::unzigzag_i32((v % 0x1_0000_0000) as u32)),
            Err(e) => Err(e),
        }
    }

    pub fn decode_i64(&mut self) -> (r: Result<i64, DecodeError>)
        requires
            old(self).wf(),
        ensures
            final(self).wf(),
            final(self).reader.data == old(self).reader.data,
            final(self).reader.pos >= old(self).reader.pos,
            match r {
                Ok(x) => {
                    &&& spec_read_uint(old(self).remaining()) matches Ok((v, n)) && x
                        == crate::zigzag::unzigzag_of_u64((v % 0x1_0000_0000_0000_0000) as u64)
                        && final(self).reader.pos == old(self).reader.pos + n
                },
                Err(e) => spec_read_uint(old(self).remaining()) matches Err(we) && we == e@,
            },
    {
        match self.read_value() {
            Ok((v, _n)) => Ok(crate::zigzag::unzigzag_i64((v % 0x1_0000_0000_0000_0000) as u64)),
            Err(e) => Err(e),
        }
    }

    pub fn decode_i128(&mut self) -> (r: Result<i128, DecodeError>)
        requires
            old(self).wf(),
        ensures
            final(self).wf(),
            final(self).reader.data == old(self).reader.data,
            final(self).reader.pos >= old(self).reader.pos,
            match r {
                Ok(x) => {
                    &&& spec_read_uint(old(self).remaining()) matches Ok((v, n)) && x
                        == crate::zigzag::unzigzag_of_u128(v) && final(self).reader.pos == old(self).reader.pos + n
                },
                Err(e) => spec_read_uint(old(self).remaining()) matches Err(we) && we == e@,
            },
    {
        match self.read_value() {
            Ok((v, _n)) => Ok(crate::zigzag::unzigzag_i128(v)),
            Err(e) => Err(e),
        }
    }

    /// Announces a blob: reads its size frame and checks the stream can
    /// still hold that many bytes.  The `size` argument is the caller's
    /// expectation and is not trusted; the observed size is returned.
    pub fn decode_bytes_begin(&mut self, size: Option<usize>) -> (r: Result<
        usize,
        DecodeError,
    >)
        requires
            old(self).wf(),
        ensures
            final(self).wf(),
            final(self).reader.data == old(self).reader.data,
            final(self).reader.pos >= old(self).reader.pos,
            match r {
                Ok(s) => {
                    &&& spec_read_size(old(self).remaining()) matches Ok((sz, n)) && s == sz
                        && final(self).reader.pos == old(self).reader.pos + n
                    &&& s <= final(self).remaining().len()
                },
                Err(e) => match spec_read_size(old(self).remaining()) {
                    Ok((sz, n)) => e@ == WireError::Eof && n + sz > old(self).remaining().len(),
                    Err(we) => we == e@,
                },
            },
    {
        let (sz, _n) = match VarIntLen::from_reader(&mut self.reader) {
            Err(e) => {
                return Err(e);
            },
            Ok((VarIntLen::Zero, n)) => (0u64, n),
            Ok((VarIntLen::ByteSize(s), n)) => (s, n),
            Ok(_) => {
                return Err(DecodeError::BadHeader);
            },
        };
        let left = self.reader.len();
        if sz > left as u64 {
            return Err(DecodeError::Eof);
        }
        Ok(sz as usize)
    }

    /// Raw blob bytes, exactly `len` of them.
    pub fn decode_bytes_payload(&mut self, len: usize) -> (r: Result<Vec<u8>, DecodeError>)
        requires
            old(self).wf(),
        ensures
            final(self).wf(),
            final(self).reader.data == old(self).reader.data,
            final(self).reader.pos >= old(self).reader.pos,
            match r {
                Ok(v) => {
                    &&& len <= old(self).remaining().len()
                    &&& v@ == old(self).remaining().take(len as int)
                    &&& final(self).reader.pos == old(self).reader.pos + len
                },
                Err(e) => e@ == WireError::Eof && len > old(self).remaining().len(),
            },
    {
        match self.reader.read(len) {
            Some(v) => Ok(v),
            None => Err(DecodeError::Eof),
        }
    }

    pub fn decode_bytes_end(&mut self) -> (r: Result<(), DecodeError>)
        ensures
            *final(self) == *old(self),
            r matches Ok(()),
    {
        Ok(())
    }

    /// A whole byte blob: size frame, then the announced bytes.
    pub fn decode_binary(&mut self, size: Option<usize>) -> (r: Result<Vec<u8>, DecodeError>)
        requires
            old(self).wf(),
        ensures
            final(self).wf(),
            final(self).reader.data == old(self).reader.data,
            final(self).reader.pos >= old(self).reader.pos,
            match r {
                Ok(v) => {
                    &&& spec_read_blob(old(self).remaining()) matches Ok((bs, n)) && v@ == bs
                        && final(self).reader.pos == old(self).reader.pos + n
                },
                Err(e) => spec_read_blob(old(self).remaining()) matches Err(we) && we == e@,
            },
    {
        let sz = match self.decode_bytes_begin(size) {
            Ok(sz) => sz,
            Err(e) => {
                return Err(e);
            },
        };
        let buf = match self.decode_bytes_payload(sz) {
            Ok(buf) => buf,
            Err(e) => {
                return Err(e);
            },
        };
        match self.decode_bytes_end() {
            Ok(()) => {},
            Err(e) => {
                return Err(e);
            },
        };
        proof {
            assert(spec_read_blob(old(self).remaining()) matches Ok((bs, n)) && buf@ == bs);
        }
        Ok(buf)
    }

    /// A UTF-8 string: a byte blob that must spell valid UTF-8.
    pub fn decode_string(&mut self) -> (r: Result<String, DecodeError>)
        requires
            old(self).wf(),
        ensures
            final(self).wf(),
            final(self).reader.data == old(self).reader.data,
            final(self).reader.pos >= old(self).reader.pos,
            match r {
                Ok(s) => {
                    &&& spec_read_blob(old(self).remaining()) matches Ok((bs, n))
                        && vstd::utf8::valid_utf8(bs) && s@ == vstd::utf8::decode_utf8(bs)
                        && final(self).reader.pos == old(self).reader.pos + n
                },
                Err(e) => match spec_read_blob(old(self).remaining()) {
                    Ok((bs, n)) => !vstd::utf8::valid_utf8(bs) && e@ == WireError::Utf8,
                    Err(we) => we == e@,
                },
            },
    {
        let bytes = match self.decode_binary(None) {
            Ok(bytes) => bytes,
            Err(e) => {
                return Err(e);
            },
        };
        match string_from_utf8(bytes) {
            Some(s) => Ok(s),
            None => Err(DecodeError::Utf8),
        }
    }

    /// A byte vector travels as a plain blob.
    pub fn decode_vec_u8(&mut self, len: Option<usize>) -> (r: Result<Vec<u8>, DecodeError>)
        requires
            old(self).wf(),
        ensures
            final(self).wf(),
            final(self).reader.data == old(self).reader.data,
            final(self).reader.pos >= old(self).reader.pos,
            match r {
                Ok(v) => {
                    &&& spec_read_blob(old(self).remaining()) matches Ok((bs, n)) && v@ == bs
                        && final(self).reader.pos == old(self).reader.pos + n
                },
                Err(e) => spec_read_blob(old(self).remaining()) matches Err(we) && we == e@,
            },
    {
        self.decode_binary(len)
    }

    /// Opens a sequence and reports the observed element count.
    pub fn decode_seq_begin(&mut self, len: Option<usize>) -> (r: Result<usize, DecodeError>)
        requires
            old(self).wf(),
        ensures
            final(self).wf(),
            final(self).reader.data == old(self).reader.data,
            final(self).reader.pos >= old(self).reader.pos,
            match r {
                Ok(m) => {
                    &&& spec_read_len(old(self).remaining()) matches Ok((l, n)) && m == l && final(self).reader.pos == old(self).reader.pos + n
                },
                Err(e) => spec_read_len(old(self).remaining()) matches Err(we) && we == e@,
            },
    {
        match VarIntLen::from_reader(&mut self.reader) {
            Err(e) => Err(e),
            Ok((VarIntLen::Zero, _n)) => Ok(0),
            Ok((VarIntLen::StructLen(m), _n)) => Ok(m as usize),
            Ok(_) => Err(DecodeError::BadHeader),
        }
    }

    pub fn decode_seq_end(&mut self) -> (r: Result<(), DecodeError>)
        ensures
            *final(self) == *old(self),
            r matches Ok(()),
    {
        Ok(())
    }

    /// Opens a record and reports the observed field count, which the
    /// evolution rules then hold against the declared one.
    pub fn decode_struct_begin(&mut self, len: usize, struct_name: Option<&str>) -> (r: Result<
        usize,
        DecodeError,
    >)
        requires
            old(self).wf(),
        ensures
            final(self).wf(),
            final(self).reader.data == old(self).reader.data,
            final(self).reader.pos >= old(self).reader.pos,
            match r {
                Ok(m) => {
                    &&& spec_read_len(old(self).remaining()) matches Ok((l, n)) && m == l && final(self).reader.pos == old(self).reader.pos + n
                },
                Err(e) => spec_read_len(old(self).remaining()) matches Err(we) && we == e@,
            },
    {
        match VarIntLen::from_reader(&mut self.reader) {
            Err(e) => Err(e),
            Ok((VarIntLen::Zero, _n)) => Ok(0),
            Ok((VarIntLen::StructLen(m), _n)) => Ok(m as usize),
            Ok(_) => Err(DecodeError::BadHeader),
        }
    }

    pub fn decode_struct_end(&mut self) -> (r: Result<(), DecodeError>)
        ensures
            *final(self) == *old(self),
            r matches Ok(()),
    {
        Ok(())
    }

    /// Opens a union value: the observed tag and whether one payload record
    /// follows it.
    pub fn decode_enum_begin(&mut self, enum_name: &str) -> (r: Result<
        (u32, usize),
        DecodeError,
    >)
        requires
            old(self).wf(),
        ensures
            final(self).wf(),
            final(self).reader.data == old(self).reader.data,
            final(self).reader.pos >= old(self).reader.pos,
            match r {
                Ok(p) => {
                    &&& spec_read_enum_head(old(self).remaining()) matches Ok((q, n)) && p == q
                        && final(self).reader.pos == old(self).reader.pos + n
                },
                Err(e) => spec_read_enum_head(old(self).remaining()) matches Err(we) && we == e@,
            },
    {
        match VarIntLen::from_reader(&mut self.reader) {
            Err(e) => Err(e),
            Ok((VarIntLen::Zero, _n)) => Ok((0, 0)),
            Ok((VarIntLen::Value(v), _n)) => Ok(((v % 0x1_0000_0000) as u32, 0)),
            Ok((VarIntLen::EnumTag(t), _n)) => Ok((t, 1)),
            Ok(_) => Err(DecodeError::BadHeader),
        }
    }

    pub fn decode_enum_end(&mut self) -> (r: Result<(), DecodeError>)
        ensures
            *final(self) == *old(self),
            r matches Ok(()),
    {
        Ok(())
    }

    /// A hook for labelled backends; the binary wire reads nothing.
    pub fn decode_elem_begin(&mut self, index: usize, elem_name: Option<&str>) -> (r: Result<
        (),
        DecodeError,
    >)
        ensures
            *final(self) == *old(self),
            r matches Ok(()),
    {
        Ok(())
    }

    pub fn decode_elem_end(&mut self) -> (r: Result<(), DecodeError>)
        ensures
            *final(self) == *old(self),
            r matches Ok(()),
    {
        Ok(())
    }

    /// Opens a fixed-size array: same wire form as a sequence.
    pub fn decode_arr_begin(&mut self, len: usize) -> (r: Result<usize, DecodeError>)
        requires
            old(self).wf(),
        ensures
            final(self).wf(),
            final(self).reader.data == old(self).reader.data,
            final(self).reader.pos >= old(self).reader.pos,
            match r {
                Ok(m) => {
                    &&& spec_read_len(old(self).remaining()) matches Ok((l, n)) && m == l && final(self).reader.pos == old(self).reader.pos + n
                },
                Err(e) => spec_read_len(old(self).remaining()) matches Err(we) && we == e@,
            },
    {
        self.decode_vec_begin()
    }

    pub fn decode_arr_end(&mut self) -> (r: Result<(), DecodeError>)
        ensures
            *final(self) == *old(self),
            r matches Ok(()),
    {
        self.decode_vec_end()
    }

    /// Opens a dynamic array: same wire form as a sequence.
    pub fn decode_vec_begin(&mut self) -> (r: Result<usize, DecodeError>)
        requires
            old(self).wf(),
        ensures
            final(self).wf(),
            final(self).reader.data == old(self).reader.data,
            final(self).reader.pos >= old(self).reader.pos,
            match r {
                Ok(m) => {
                    &&& spec_read_len(old(self).remaining()) matches Ok((l, n)) && m == l && final(self).reader.pos == old(self).reader.pos + n
                },
                Err(e) => spec_read_len(old(self).remaining()) matches Err(we) && we == e@,
            },
    {
        self.decode_seq_begin(None)
    }

    pub fn decode_vec_end(&mut self) -> (r: Result<(), DecodeError>)
        ensures
            *final(self) == *old(self),
            r matches Ok(()),
    {
        self.decode_seq_end()
    }

    /// A packed slice back from one blob: the size must divide evenly into
    /// fixed-width little-endian elements.
    pub fn decode_vec_u16(&mut self, len: Option<usize>) -> (r: Result<Vec<u16>, DecodeError>)
        requires
            old(self).wf(),
        ensures
            final(self).wf(),
            final(self).reader.data == old(self).reader.data,
            final(self).reader.pos >= old(self).reader.pos,
            match spec_read_blob(old(self).remaining()) {
                Ok((bs, n)) => if bs.len() % 2 == 0 {
                    r matches Ok(v) && v@.len() * 2 == bs.len() && nats_u16(v@) == unpack(
                        bs,
                        2,
                        (bs.len() / 2) as nat,
                    ) && final(self).reader.pos == old(self).reader.pos + n
                } else {
                    r matches Err(e) && e@ == WireError::BadLength
                },
                Err(we) => r matches Err(e) && e@ == we,
            },
    {
        let bytes = match self.decode_binary(len) {
            Ok(b) => b,
            Err(e) => {
                return Err(e);
            },
        };
        if bytes.len() % 2 != 0 {
            return Err(DecodeError::BadLength);
        }
        let dlen: usize = bytes.len();
        let n = dlen / 2;
        let mut out: Vec<u16> = Vec::new();
        proof {
            lemma_unpack_len(bytes@, 2, n as nat);
        }
        let mut i: usize = 0;
        while i < n
            invariant
                n * 2 == bytes@.len(),
                dlen == bytes@.len(),
                unpack(bytes@, 2, n as nat).len() == n,
                out@.len() == i,
                i <= n,
                forall|j: int|
                    0 <= j < i ==> nats_u16(out@)[j] == #[trigger] unpack(
                        bytes@,
                        2,
                        n as nat,
                    )[j],
            decreases n - i,
        {
            let c = chunk_val(&bytes, i * 2, 2);
            proof {
                lemma_unpack_index(bytes@, 2, n as nat, i as int);
                crate::bytes::lemma_le_val_bound(
                    bytes@.subrange((i * 2) as int, (i * 2 + 2) as int),
                );
                crate::bytes::lemma_pow256_values();
            }
            out.push(c as u16);
            i = i + 1;
        }
        proof {
            lemma_unpack_len(bytes@, 2, n as nat);
            assert(nats_u16(out@) =~= unpack(bytes@, 2, n as nat));
        }
        Ok(out)
    }


    /// A packed slice back from one blob: the size must divide evenly into
    /// fixed-width little-endian elements.
    pub fn decode_vec_u32(&mut self, len: Option<usize>) -> (r: Result<Vec<u32>, DecodeError>)
        requires
            old(self).wf(),
        ensures
            final(self).wf(),
            final(self).reader.data == old(self).reader.data,
            final(self).reader.pos >= old(self).reader.pos,
            match spec_read_blob(old(self).remaining()) {
                Ok((bs, n)) => if bs.len() % 4 == 0 {
                    r matches Ok(v) && v@.len() * 4 == bs.len() && nats_u32(v@) == unpack(
                        bs,
                        4,
                        (bs.len() / 4) as nat,
                    ) && final(self).reader.pos == old(self).reader.pos + n
                } else {
                    r matches Err(e) && e@ == WireError::BadLength
                },
                Err(we) => r matches Err(e) && e@ == we,
            },
    {
        let bytes = match self.decode_binary(len) {
            Ok(b) => b,
            Err(e) => {
                return Err(e);
            },
        };
        if bytes.len() % 4 != 0 {
            return Err(DecodeError::BadLength);
        }
        let dlen: usize = bytes.len();
        let n = dlen / 4;
        let mut out: Vec<u32> = Vec::new();
        proof {
            lemma_unpack_len(bytes@, 4, n as nat);
        }
        let mut i: usize = 0;
        while i < n
            invariant
                n * 4 == bytes@.len(),
                dlen == bytes@.len(),
                unpack(bytes@, 4, n as nat).len() == n,
                out@.len() == i,
                i <= n,
                forall|j: int|
                    0 <= j < i ==> nats_u32(out@)[j] == #[trigger] unpack(
                        bytes@,
                        4,
                        n as nat,
                    )[j],
            decreases n - i,
        {
            let c = chunk_val(&bytes, i * 4, 4);
            proof {
                lemma_unpack_index(bytes@, 4, n as nat, i as int);
                crate::bytes::lemma_le_val_bound(
                    bytes@.subrange((i * 4) as int, (i * 4 + 4) as int),
                );
                crate::bytes::lemma_pow256_values();
            }
            out.push(c as u32);
            i = i + 1;
        }
        proof {
            lemma_unpack_len(bytes@, 4, n as nat);
            assert(nats_u32(out@) =~= unpack(bytes@, 4, n as nat));
        }
        Ok(out)
    }

    /// A packed slice back from one blob: the size must divide evenly into
    /// fixed-width little-endian elements.
    pub fn decode_vec_u64(&mut self, len: Option<usize>) -> (r: Result<Vec<u64>, DecodeError>)
        requires
            old(self).wf(),
        ensures
            final(self).wf(),
            final(self).reader.data == old(self).reader.data,
            final(self).reader.pos >= old(self).reader.pos,
            match spec_read_blob(old(self).remaining()) {
                Ok((bs, n)) => if bs.len() % 8 == 0 {
                    r matches Ok(v) && v@.len() * 8 == bs.len() && nats_u64(v@) == unpack(
                        bs,
                        8,
                        (bs.len() / 8) as nat,
                    ) && final(self).reader.pos == old(self).reader.pos + n
                } else {
                    r matches Err(e) && e@ == WireError::BadLength
                },
                Err(we) => r matches Err(e) && e@ == we,
            },
    {
        let bytes = match self.decode_binary(len) {
            Ok(b) => b,
            Err(e) => {
                return Err(e);
            },
        };
        if bytes.len() % 8 != 0 {
            return Err(DecodeError::BadLength);
        }
        let dlen: usize = bytes.len();
        let n = dlen / 8;
        let mut out: Vec<u64> = Vec::new();
        proof {
            lemma_unpack_len(bytes@, 8, n as nat);
        }
        let mut i: usize = 0;
        while i < n
            invariant
                n * 8 == bytes@.len(),
                dlen == bytes@.len(),
                unpack(bytes@, 8, n as nat).len() == n,
                out@.len() == i,
                i <= n,
                forall|j: int|
                    0 <= j < i ==> nats_u64(out@)[j] == #[trigger] unpack(
                        bytes@,
                        8,
                        n as nat,
                    )[j],
            decreases n - i,
        {
            let c = chunk_val(&bytes, i * 8, 8);
            proof {
                lemma_unpack_index(bytes@, 8, n as nat, i as int);
                crate::bytes::lemma_le_val_bound(
                    bytes@.subrange((i * 8) as int, (i * 8 + 8) as int),
                );
                crate::bytes::lemma_pow256_values();
            }
            out.push(c as u64);
            i = i + 1;
        }
        proof {
            lemma_unpack_len(bytes@, 8, n as nat);
            assert(nats_u64(out@) =~= unpack(bytes@, 8, n as nat));
        }
        Ok(out)
    }

    /// A packed slice back from one blob: the size must divide evenly into
    /// fixed-width little-endian elements.
    pub fn decode_vec_u128(&mut self, len: Option<usize>) -> (r: Result<Vec<u128>, DecodeError>)
        requires
            old(self).wf(),
        ensures
            final(self).wf(),
            final(self).reader.data == old(self).reader.data,
            final(self).reader.pos >= old(self).reader.pos,
            match spec_read_blob(old(self).remaining()) {
                Ok((bs, n)) => if bs.len() % 16 == 0 {
                    r matches Ok(v) && v@.len() * 16 == bs.len() && nats_u128(v@) == unpack(
                        bs,
                        16,
                        (bs.len() / 16) as nat,
                    ) && final(self).reader.pos == old(self).reader.pos + n
                } else {
                    r matches Err(e) && e@ == WireError::BadLength
                },
                Err(we) => r matches Err(e) && e@ == we,
            },
    {
        let bytes = match self.decode_binary(len) {
            Ok(b) => b,
            Err(e) => {
                return Err(e);
            },
        };
        if bytes.len() % 16 != 0 {
            return Err(DecodeError::BadLength);
        }
        let dlen: usize = bytes.len();
        let n = dlen / 16;
        let mut out: Vec<u128> = Vec::new();
        proof {
            lemma_unpack_len(bytes@, 16, n as nat);
        }
        let mut i: usize = 0;
        while i < n
            invariant
                n * 16 == bytes@.len(),
                dlen == bytes@.len(),
                unpack(bytes@, 16, n as nat).len() == n,
                out@.len() == i,
                i <= n,
                forall|j: int|
                    0 <= j < i ==> nats_u128(out@)[j] == #[trigger] unpack(
                        bytes@,
                        16,
                        n as nat,
                    )[j],
            decreases n - i,
        {
            let c = chunk_val(&bytes, i * 16, 16);
            proof {
                lemma_unpack_index(bytes@, 16, n as nat, i as int);
                crate::bytes::lemma_le_val_bound(
                    bytes@.subrange((i * 16) as int, (i * 16 + 16) as int),
                );
                crate::bytes::lemma_pow256_values();
            }
            out.push(c as u128);
            i = i + 1;
        }
        proof {
            lemma_unpack_len(bytes@, 16, n as nat);
            assert(nats_u128(out@) =~= unpack(bytes@, 16, n as nat));
        }
        Ok(out)
    }

    /// A packed slice back from one blob: the size must divide evenly into
    /// fixed-width little-endian elements.
    pub fn decode_vec_i8(&mut self, len: Option<usize>) -> (r: Result<Vec<i8>, DecodeError>)
        requires
            old(self).wf(),
        ensures
            final(self).wf(),
            final(self).reader.data == old(self).reader.data,
            final(self).reader.pos >= old(self).reader.pos,
            match spec_read_blob(old(self).remaining()) {
                Ok((bs, n)) => if bs.len() % 1 == 0 {
                    r matches Ok(v) && v@.len() * 1 == bs.len() && nats_i8(v@) == unpack(
                        bs,
                        1,
                        (bs.len() / 1) as nat,
                    ) && final(self).reader.pos == old(self).reader.pos + n
                } else {
                    r matches Err(e) && e@ == WireError::BadLength
                },
                Err(we) => r matches Err(e) && e@ == we,
            },
    {
        let bytes = match self.decode_binary(len) {
            Ok(b) => b,
            Err(e) => {
                return Err(e);
            },
        };
        if bytes.len() % 1 != 0 {
            return Err(DecodeError::BadLength);
        }
        let dlen: usize = bytes.len();
        let n = dlen / 1;
        let mut out: Vec<i8> = Vec::new();
        proof {
            lemma_unpack_len(bytes@, 1, n as nat);
        }
        let mut i: usize = 0;
        while i < n
            invariant
                n * 1 == bytes@.len(),
                dlen == bytes@.len(),
                unpack(bytes@, 1, n as nat).len() == n,
                out@.len() == i,
                i <= n,
                forall|j: int|
                    0 <= j < i ==> nats_i8(out@)[j] == #[trigger] unpack(
                        bytes@,
                        1,
                        n as nat,
                    )[j],
            decreases n - i,
        {
            let c = chunk_val(&bytes, i * 1, 1);
            proof {
                lemma_unpack_index(bytes@, 1, n as nat, i as int);
                crate::bytes::lemma_le_val_bound(
                    bytes@.subrange((i * 1) as int, (i * 1 + 1) as int),
                );
                crate::bytes::lemma_pow256_values();
            }
            let x: i8 = if c < 0x80 {
                c as i8
            } else {
                ((c as i16) - 0x100) as i8
            };
            proof {
                assert(tc_i8(x) == c as nat);
            }
            out.push(x);
            i = i + 1;
        }
        proof {
            lemma_unpack_len(bytes@, 1, n as nat);
            assert(nats_i8(out@) =~= unpack(bytes@, 1, n as nat));
        }
        Ok(out)
    }

    /// A packed slice back from one blob: the size must divide evenly into
    /// fixed-width little-endian elements.
    pub fn decode_vec_i16(&mut self, len: Option<usize>) -> (r: Result<Vec<i16>, DecodeError>)
        requires
            old(self).wf(),
        ensures
            final(self).wf(),
            final(self).reader.data == old(self).reader.data,
            final(self).reader.pos >= old(self).reader.pos,
            match spec_read_blob(old(self).remaining()) {
                Ok((bs, n)) => if bs.len() % 2 == 0 {
                    r matches Ok(v) && v@.len() * 2 == bs.len() && nats_i16(v@) == unpack(
                        bs,
                        2,
                        (bs.len() / 2) as nat,
                    ) && final(self).reader.pos == old(self).reader.pos + n
                } else {
                    r matches Err(e) && e@ == WireError::BadLength
                },
                Err(we) => r matches Err(e) && e@ == we,
            },
    {
        let bytes = match self.decode_binary(len) {
            Ok(b) => b,
            Err(e) => {
                return Err(e);
            },
        };
        if bytes.len() % 2 != 0 {
            return Err(DecodeError::BadLength);
        }
        let dlen: usize = bytes.len();
        let n = dlen / 2;
        let mut out: Vec<i16> = Vec::new();
        proof {
            lemma_unpack_len(bytes@, 2, n as nat);
        }
        let mut i: usize = 0;
        while i < n
            invariant
                n * 2 == bytes@.len(),
                dlen == bytes@.len(),
                unpack(bytes@, 2, n as nat).len() == n,
                out@.len() == i,
                i <= n,
                forall|j: int|
                    0 <= j < i ==> nats_i16(out@)[j] == #[trigger] unpack(
                        bytes@,
                        2,
                        n as nat,
                    )[j],
            decreases n - i,
        {
            let c = chunk_val(&bytes, i * 2, 2);
            proof {
                lemma_unpack_index(bytes@, 2, n as nat, i as int);
                crate::bytes::lemma_le_val_bound(
                    bytes@.subrange((i * 2) as int, (i * 2 + 2) as int),
                );
                crate::bytes::lemma_pow256_values();
            }
            let x: i16 = if c < 0x8000 {
                c as i16
            } else {
                ((c as i32) - 0x1_0000) as i16
            };
            proof {
                assert(tc_i16(x) == c as nat);
            }
            out.push(x);
            i = i + 1;
        }
        proof {
            lemma_unpack_len(bytes@, 2, n as nat);
            assert(nats_i16(out@) =~= unpack(bytes@, 2, n as nat));
        }
        Ok(out)
    }

    /// A packed slice back from one blob: the size must divide evenly into
    /// fixed-width little-endian elements.
    pub fn decode_vec_i32(&mut self, len: Option<usize>) -> (r: Result<Vec<i32>, DecodeError>)
        requires
            old(self).wf(),
        ensures
            final(self).wf(),
            final(self).reader.data == old(self).reader.data,
            final(self).reader.pos >= old(self).reader.pos,
            match spec_read_blob(old(self).remaining()) {
                Ok((bs, n)) => if bs.len() % 4 == 0 {
                    r matches Ok(v) && v@.len() * 4 == bs.len() && nats_i32(v@) == unpack(
                        bs,
                        4,
                        (bs.len() / 4) as nat,
                    ) && final(self).reader.pos == old(self).reader.pos + n
                } else {
                    r matches Err(e) && e@ == WireError::BadLength
                },
                Err(we) => r matches Err(e) && e@ == we,
            },
    {
        let bytes = match self.decode_binary(len) {
            Ok(b) => b,
            Err(e) => {
                return Err(e);
            },
        };
        if bytes.len() % 4 != 0 {
            return Err(DecodeError::BadLength);
        }
        let dlen: usize = bytes.len();
        let n = dlen / 4;
        let mut out: Vec<i32> = Vec::new();
        proof {
            lemma_unpack_len(bytes@, 4, n as nat);
        }
        let mut i: usize = 0;
        while i < n
            invariant
                n * 4 == bytes@.len(),
                dlen == bytes@.len(),
                unpack(bytes@, 4, n as nat).len() == n,
                out@.len() == i,
                i <= n,
                forall|j: int|
                    0 <= j < i ==> nats_i32(out@)[j] == #[trigger] unpack(
                        bytes@,
                        4,
                        n as nat,
                    )[j],
            decreases n - i,
        {
            let c = chunk_val(&bytes, i * 4, 4);
            proof {
                lemma_unpack_index(bytes@, 4, n as nat, i as int);
                crate::bytes::lemma_le_val_bound(
                    bytes@.subrange((i * 4) as int, (i * 4 + 4) as int),
                );
                crate::bytes::lemma_pow256_values();
            }
            let x: i32 = if c < 0x8000_0000 {
                c as i32
            } else {
                ((c as i64) - 0x1_0000_0000) as i32
            };
            proof {
                assert(tc_i32(x) == c as nat);
            }
            out.push(x);
            i = i + 1;
        }
        proof {
            lemma_unpack_len(bytes@, 4, n as nat);
            assert(nats_i32(out@) =~= unpack(bytes@, 4, n as nat));
        }
        Ok(out)
    }

    /// A packed slice back from one blob: the size must divide evenly into
    /// fixed-width little-endian elements.
    pub fn decode_vec_i64(&mut self, len: Option<usize>) -> (r: Result<Vec<i64>, DecodeError>)
        requires
            old(self).wf(),
        ensures
            final(self).wf(),
            final(self).reader.data == old(self).reader.data,
            final(self).reader.pos >= old(self).reader.pos,
            match spec_read_blob(old(self).remaining()) {
                Ok((bs, n)) => if bs.len() % 8 == 0 {
                    r matches Ok(v) && v@.len() * 8 == bs.len() && nats_i64(v@) == unpack(
                        bs,
                        8,
                        (bs.len() / 8) as nat,
                    ) && final(self).reader.pos == old(self).reader.pos + n
                } else {
                    r matches Err(e) && e@ == WireError::BadLength
                },
                Err(we) => r matches Err(e) && e@ == we,
            },
    {
        let bytes = match self.decode_binary(len) {
            Ok(b) => b,
            Err(e) => {
                return Err(e);
            },
        };
        if bytes.len() % 8 != 0 {
            return Err(DecodeError::BadLength);
        }
        let dlen: usize = bytes.len();
        let n = dlen / 8;
        let mut out: Vec<i64> = Vec::new();
        proof {
            lemma_unpack_len(bytes@, 8, n as nat);
        }
        let mut i: usize = 0;
        while i < n
            invariant
                n * 8 == bytes@.len(),
                dlen == bytes@.len(),
                unpack(bytes@, 8, n as nat).len() == n,
                out@.len() == i,
                i <= n,
                forall|j: int|
                    0 <= j < i ==> nats_i64(out@)[j] == #[trigger] unpack(
                        bytes@,
                        8,
                        n as nat,
                    )[j],
            decreases n - i,
        {
            let c = chunk_val(&bytes, i * 8, 8);
            proof {
                lemma_unpack_index(bytes@, 8, n as nat, i as int);
                crate::bytes::lemma_le_val_bound(
                    bytes@.subrange((i * 8) as int, (i * 8 + 8) as int),
                );
                crate::bytes::lemma_pow256_values();
            }
            let x: i64 = if c < 0x8000_0000_0000_0000 {
                c as i64
            } else {
                ((c as i128) - 0x1_0000_0000_0000_0000) as i64
            };
            proof {
                assert(tc_i64(x) == c as nat);
            }
            out.push(x);
            i = i + 1;
        }
        proof {
            lemma_unpack_len(bytes@, 8, n as nat);
            assert(nats_i64(out@) =~= unpack(bytes@, 8, n as nat));
        }
        Ok(out)
    }

    /// A packed slice back from one blob: the size must divide evenly into
    /// fixed-width little-endian elements.
    pub fn decode_vec_i128(&mut self, len: Option<usize>) -> (r: Result<Vec<i128>, DecodeError>)
        requires
            old(self).wf(),
        ensures
            final(self).wf(),
            final(self).reader.data == old(self).reader.data,
            final(self).reader.pos >= old(self).reader.pos,
            match spec_read_blob(old(self).remaining()) {
                Ok((bs, n)) => if bs.len() % 16 == 0 {
                    r matches Ok(v) && v@.len() * 16 == bs.len() && nats_i128(v@) == unpack(
                        bs,
                        16,
                        (bs.len() / 16) as nat,
                    ) && final(self).reader.pos == old(self).reader.pos + n
                } else {
                    r matches Err(e) && e@ == WireError::BadLength
                },
                Err(we) => r matches Err(e) && e@ == we,
            },
    {
        let bytes = match self.decode_binary(len) {
            Ok(b) => b,
            Err(e) => {
                return Err(e);
            },
        };
        if bytes.len() % 16 != 0 {
            return Err(DecodeError::BadLength);
        }
        let dlen: usize = bytes.len();
        let n = dlen / 16;
        let mut out: Vec<i128> = Vec::new();
        proof {
            lemma_unpack_len(bytes@, 16, n as nat);
        }
        let mut i: usize = 0;
        while i < n
            invariant
                n * 16 == bytes@.len(),
                dlen == bytes@.len(),
                unpack(bytes@, 16, n as nat).len() == n,
                out@.len() == i,
                i <= n,
                forall|j: int|
                    0 <= j < i ==> nats_i128(out@)[j] == #[trigger] unpack(
                        bytes@,
                        16,
                        n as nat,
                    )[j],
            decreases n - i,
        {
            let c = chunk_val(&bytes, i * 16, 16);
            proof {
                lemma_unpack_index(bytes@, 16, n as nat, i as int);
                crate::bytes::lemma_le_val_bound(
                    bytes@.subrange((i * 16) as int, (i * 16 + 16) as int),
                );
                crate::bytes::lemma_pow256_values();
            }
            let x: i128 = if c < 0x8000_0000_0000_0000_0000_0000_0000_0000 {
                c as i128
            } else {
                -((u128::MAX - c) as i128) - 1
            };
            proof {
                assert(tc_i128(x) == c as nat);
            }
            out.push(x);
            i = i + 1;
        }
        proof {
            lemma_unpack_len(bytes@, 16, n as nat);
            assert(nats_i128(out@) =~= unpack(bytes@, 16, n as nat));
        }
        Ok(out)
    }

    /// A packed slice of truth values back from one blob, one byte each:
    /// any non-zero byte reads as true.
    pub fn decode_vec_bool(&mut self, len: Option<usize>) -> (r: Result<Vec<bool>, DecodeError>)
        requires
            old(self).wf(),
        ensures
            final(self).wf(),
            final(self).reader.data == old(self).reader.data,
            final(self).reader.pos >= old(self).reader.pos,
            match spec_read_blob(old(self).remaining()) {
                Ok((bs, n)) => {
                    r matches Ok(v) && v@.len() == bs.len() && (forall|j: int|
                        0 <= j < bs.len() ==> v@[j] == (bs[j] != 0)) && final(self).reader.pos
                        == old(self).reader.pos + n
                },
                Err(we) => r matches Err(e) && e@ == we,
            },
    {
        let bytes = match self.decode_binary(len) {
            Ok(b) => b,
            Err(e) => {
                return Err(e);
            },
        };
        let dlen: usize = bytes.len();
        let mut out: Vec<bool> = Vec::new();
        let mut i: usize = 0;
        while i < dlen
            invariant
                dlen == bytes@.len(),
                out@.len() == i,
                i <= dlen,
                forall|j: int| 0 <= j < i ==> out@[j] == (bytes@[j] != 0),
            decreases dlen - i,
        {
            out.push(bytes[i] != 0);
            i = i + 1;
        }
        Ok(out)
    }

    /// A packed slice of characters back from one blob, four little-endian
    /// bytes each; a group that is not a Unicode scalar value is fatal.
    pub fn decode_vec_char(&mut self, len: Option<usize>) -> (r: Result<Vec<char>, DecodeError>)
        requires
            old(self).wf(),
        ensures
            final(self).wf(),
            final(self).reader.data == old(self).reader.data,
            final(self).reader.pos >= old(self).reader.pos,
            match spec_read_blob(old(self).remaining()) {
                Ok((bs, n)) => if bs.len() % 4 != 0 {
                    r matches Err(e) && e@ == WireError::BadLength
                } else {
                    let vals = unpack(bs, 4, (bs.len() / 4) as nat);
                    if forall|j: int|
                        0 <= j < vals.len() ==> vstd::utf8::is_scalar((#[trigger] vals[j]) as u32) {
                        r matches Ok(v) && v@.len() * 4 == bs.len() && (forall|j: int|
                            0 <= j < v@.len() ==> ((#[trigger] v@[j]) as u32) as nat == vals[j])
                            && final(self).reader.pos == old(self).reader.pos + n
                    } else {
                        r matches Err(e) && e@ == WireError::BadChar
                    }
                },
                Err(we) => r matches Err(e) && e@ == we,
            },
    {
        let bytes = match self.decode_binary(len) {
            Ok(b) => b,
            Err(e) => {
                return Err(e);
            },
        };
        if bytes.len() % 4 != 0 {
            return Err(DecodeError::BadLength);
        }
        let dlen: usize = bytes.len();
        let n = dlen / 4;
        let ghost vals = unpack(bytes@, 4, n as nat);
        let mut out: Vec<char> = Vec::new();
        proof {
            lemma_unpack_len(bytes@, 4, n as nat);
        }
        let mut i: usize = 0;
        while i < n
            invariant
                self.wf(),
                self.reader.data == old(self).reader.data,
                self.reader.pos >= old(self).reader.pos,
                spec_read_blob(old(self).remaining()) matches Ok((bs2, n2)) && bs2 == bytes@
                    && self.reader.pos == old(self).reader.pos + n2,
                n * 4 == bytes@.len(),
                dlen == bytes@.len(),
                vals == unpack(bytes@, 4, n as nat),
                vals.len() == n,
                out@.len() == i,
                i <= n,
                forall|j: int|
                    0 <= j < i ==> ((#[trigger] out@[j]) as u32) as nat == vals[j],
            decreases n - i,
        {
            let c = chunk_val(&bytes, i * 4, 4);
            proof {
                lemma_unpack_index(bytes@, 4, n as nat, i as int);
                crate::bytes::lemma_le_val_bound(
                    bytes@.subrange((i * 4) as int, (i * 4 + 4) as int),
                );
                crate::bytes::lemma_pow256_values();
            }
            let x = match char_from_u32(c as u32) {
                Some(x) => x,
                None => {
                    proof {
                        assert(!vstd::utf8::is_scalar((vals[i as int]) as u32));
                        assert(!(forall|j: int|
                            0 <= j < vals.len() ==> vstd::utf8::is_scalar(
                                (#[trigger] vals[j]) as u32,
                            )));
                    }
                    return Err(DecodeError::BadChar);
                },
            };
            out.push(x);
            i = i + 1;
        }
        proof {
            assert forall|j: int|
                0 <= j < vals.len() implies vstd::utf8::is_scalar(
                (#[trigger] vals[j]) as u32,
            ) by {
                vstd::utf8::char_is_scalar(out@[j]);
            };
        }
        Ok(out)
    }

    /// Walks past `n` self-delimiting values of unknown shape: the rule that
    /// lets an old program step over fields a newer one added.
    pub fn decode_skip(&mut self, n: usize) -> (r: Result<(), DecodeError>)
        requires
            old(self).wf(),
        ensures
            final(self).wf(),
            final(self).reader.data == old(self).reader.data,
            final(self).reader.pos >= old(self).reader.pos,
            match r {
                Ok(()) => {
                    &&& spec_skip(old(self).remaining(), n as nat) matches Ok(m) && final(self).reader.pos == old(self).reader.pos + m
                },
                Err(e) => spec_skip(old(self).remaining(), n as nat) matches Err(we) && we == e@,
            },
    {
        let ghost rem0 = old(self).remaining();
        let ghost n0 = n as nat;
        let mut counter: u128 = n as u128;
        while counter != 0
            invariant
                self.wf(),
                self.reader.data == old(self).reader.data,
                self.reader.pos >= old(self).reader.pos,
                n0 <= usize::MAX,
                rem0 == old(self).remaining(),
                n0 == n as nat,
                counter as nat <= n0 + 0x1_0000_0000 * (self.reader.pos - old(self).reader.pos),
                spec_skip_add(
                    spec_skip(self.remaining(), counter as nat),
                    (self.reader.pos - old(self).reader.pos) as nat,
                ) == spec_skip(rem0, n0),
            decreases self.remaining().len(), counter,
        {
            let ghost counter_top = counter as nat;
            let ghost d_pre = (self.reader.pos - old(self).reader.pos) as nat;
            let ghost pre = self.remaining();
            counter = counter - 1;
            let (f, c) = match VarIntLen::from_reader(&mut self.reader) {
                Err(e) => {
                    proof {
                        assert(spec_skip(pre, counter_top) == Err::<nat, WireError>(
                            WireError::Eof,
                        ));
                    }
                    return Err(e);
                },
                Ok(p) => p,
            };
            proof {
                crate::frame::lemma_parse_frame_len(pre);
            }
            match f {
                VarIntLen::Zero => {
                    proof {
                        lemma_skip_invariant_step(pre, counter_top, c as nat, (counter_top
                            - 1) as nat, d_pre, rem0, n0);
                        assert(self.remaining() =~= pre.skip(c as int));
                    }
                },
                VarIntLen::Value(_) => {
                    proof {
                        lemma_skip_invariant_step(pre, counter_top, c as nat, (counter_top
                            - 1) as nat, d_pre, rem0, n0);
                        assert(self.remaining() =~= pre.skip(c as int));
                    }
                },
                VarIntLen::EnumTag(_) => {
                    counter = counter + 1;
                    proof {
                        lemma_skip_invariant_step(pre, counter_top, c as nat, counter_top, d_pre,
                            rem0, n0);
                        assert(self.remaining() =~= pre.skip(c as int));
                    }
                },
                VarIntLen::StructLen(k) => {
                    proof {
                        assert(counter + k as u128 <= n0 + 0x1_0000_0000 * d_pre
                            + 0x1_0000_0000);
                    }
                    counter = counter + k as u128;
                    proof {
                        lemma_skip_invariant_step(pre, counter_top, c as nat, (counter_top - 1
                            + k) as nat, d_pre, rem0, n0);
                        assert(self.remaining() =~= pre.skip(c as int));
                    }
                },
                VarIntLen::ByteSize(s) => {
                    let left = self.reader.len();
                    if s > left as u64 {
                        proof {
                            assert(c + s > pre.len());
                            assert(spec_skip(pre, counter_top) == Err::<nat, WireError>(
                                WireError::Eof,
                            ));
                        }
                        return Err(DecodeError::Eof);
                    }
                    let _ = match self.reader.read(s as usize) {
                        Some(v) => v,
                        None => {
                            return Err(DecodeError::Eof);
                        },
                    };
                    proof {
                        lemma_skip_invariant_step(pre, counter_top, (c + s) as nat, (counter_top
                            - 1) as nat, d_pre, rem0, n0);
                        assert(self.remaining() =~= pre.skip(c + s as int));
                    }
                },
            }
        }
        Ok(())
    }
}

/// One loop step of the skip walk keeps its accounting: consuming one value's
/// frame (and blob payload) and queueing what it announces leaves the total
/// unchanged.
proof fn lemma_skip_invariant_step(
    pre: Seq<u8>,
    counter_top: nat,
    consumed: nat,
    queue: nat,
    d_pre: nat,
    rem0: Seq<u8>,
    n0: nat,
)
    requires
        counter_top > 0,
        consumed <= pre.len(),
        spec_skip_add(spec_skip(pre, counter_top), d_pre) == spec_skip(rem0, n0),
        ({
            let parsed = parse_frame(pre);
            &&& parsed is Some
            &&& ({
                let (f, c) = parsed->Some_0;
                match f {
                    VarIntLen::Zero => consumed == c && queue == counter_top - 1,
                    VarIntLen::Value(_) => consumed == c && queue == counter_top - 1,
                    VarIntLen::EnumTag(_) => consumed == c && queue == counter_top,
                    VarIntLen::StructLen(k) => consumed == c && queue == counter_top - 1 + k,
                    VarIntLen::ByteSize(s) => consumed == c + s && queue == counter_top - 1,
                }
            })
        }),
    ensures
        spec_skip_add(spec_skip(pre.skip(consumed as int), queue), d_pre + consumed) == spec_skip(
            rem0,
            n0,
        ),
{
    assert(spec_skip(pre, counter_top) == spec_skip_add(
        spec_skip(pre.skip(consumed as int), queue),
        consumed,
    ));
}

/// Appends the bytes already consumed to a pending skip count.
pub open spec fn spec_skip_add(r: Result<nat, WireError>, d: nat) -> Result<nat, WireError> {
    match r {
        Ok(m) => Ok((m + d) as nat),
        Err(e) => Err(e),
    }
}

/// Skipping is sequential: past `n + k` values is past `n` values, then past
/// `k` more from where that left off.
pub proof fn lemma_spec_skip_split(b: Seq<u8>, n: nat, k: nat, c: nat)
    requires
        spec_skip(b, n) == Ok::<nat, WireError>(c),
    ensures
        c <= b.len(),
        spec_skip(b, (n + k) as nat) == spec_skip_add(spec_skip(b.skip(c as int), k), c),
    decreases b.len(), n,
{
    if n == 0 {
        assert(c == 0);
        assert(b.skip(0) =~= b);
    } else {
        let (f, c0) = parse_frame(b)->Some_0;
        crate::frame::lemma_parse_frame_len(b);
        let (consumed, queue) = match f {
            VarIntLen::Zero => (c0, (n - 1) as nat),
            VarIntLen::Value(_) => (c0, (n - 1) as nat),
            VarIntLen::EnumTag(_) => (c0, n),
            VarIntLen::StructLen(kk) => (c0, (n - 1 + kk) as nat),
            VarIntLen::ByteSize(s) => ((c0 + s) as nat, (n - 1) as nat),
        };
        let m = spec_skip(b.skip(consumed as int), queue)->Ok_0;
        assert(c == consumed + m);
        lemma_spec_skip_split(b.skip(consumed as int), queue, k, m);
        assert(b.skip(consumed as int).skip(m as int) =~= b.skip(c as int));
        let (consumed2, queue2) = match f {
            VarIntLen::Zero => (c0, (n + k - 1) as nat),
            VarIntLen::Value(_) => (c0, (n + k - 1) as nat),
            VarIntLen::EnumTag(_) => (c0, (n + k) as nat),
            VarIntLen::StructLen(kk) => (c0, (n + k - 1 + kk) as nat),
            VarIntLen::ByteSize(s) => ((c0 + s) as nat, (n + k - 1) as nat),
        };
        assert(consumed2 == consumed && queue2 == queue + k);
        assert(spec_skip(b, (n + k) as nat) == spec_skip_add(
            spec_skip(b.skip(consumed as int), (queue + k) as nat),
            consumed,
        ));
    }
}

/// The value of the `w` little-endian bytes at `start` in a buffer.
fn chunk_val(bytes: &Vec<u8>, start: usize, w: usize) -> (v: u128)
    requires
        1 <= w <= 16,
        start + w <= bytes@.len(),
    ensures
        v as nat == le_val(bytes@.subrange(start as int, (start + w) as int)),
{
    proof {
        assert(bytes@.subrange((start + w) as int, (start + w) as int) =~= Seq::<u8>::empty());
    }
    let dlen: usize = bytes.len();
    let mut v: u128 = 0;
    let mut i: usize = w;
    while i > 0
        invariant
            i <= w,
            w <= 16,
            start + w <= dlen,
            dlen == bytes@.len(),
            v as nat == le_val(bytes@.subrange((start + i) as int, (start + w) as int)),
        decreases i,
    {
        i = i - 1;
        proof {
            let tailseq = bytes@.subrange((start + i + 1) as int, (start + w) as int);
            crate::bytes::lemma_le_val_bound(tailseq);
            crate::bytes::lemma_pow256_values();
            assert(pow256(tailseq.len()) <= pow256(15)) by {
                crate::bytes::lemma_pow256_mono(tailseq.len(), 15);
            };
            assert(256 * (v as nat) < 256 * pow256(15)) by (nonlinear_arith)
                requires
                    (v as nat) < pow256(15),
            ;
            assert(256 * pow256(15) == pow256(16));
            assert(bytes@.subrange((start + i) as int, (start + w) as int).drop_first()
                =~= tailseq);
        }
        v = v * 256 + bytes[start + i] as u128;
    }
    v
}

/// The little-endian bytes of `v`, padded or trimmed to `len`.
fn le_bytes_vec(v: u128, len: usize) -> (r: Vec<u8>)
    requires
        len <= 16,
    ensures
        r@ == le_bytes(v as nat, len as nat),
{
    proof {
        assert(pow256(0) == 1);
        assert((v as nat) / pow256(0) == v as nat);
        assert(le_bytes(v as nat, 0) =~= Seq::<u8>::empty());
    }
    let mut r: Vec<u8> = Vec::new();
    let mut t = v;
    let mut i: usize = 0;
    while i < len
        invariant
            i <= len,
            len <= 16,
            t as nat == (v as nat) / pow256(i as nat),
            r@ == le_bytes(v as nat, i as nat),
        decreases len - i,
    {
        r.push((t % 256) as u8);
        proof {
            crate::bytes::lemma_le_bytes_snoc(v as nat, i as nat);
            crate::bytes::lemma_pow256_pos(i as nat);
            assert((t as nat) / 256 == (v as nat) / pow256((i + 1) as nat)) by {
                vstd::arithmetic::div_mod::lemma_div_denominator(
                    v as int,
                    pow256(i as nat) as int,
                    256,
                );
                assert(pow256(i as nat) * 256 == pow256((i + 1) as nat));
            };
        }
        t = t / 256;
        i = i + 1;
    }
    r
}

} // verus!
