//! Per-type adapters over the wire codec: what each shape encodes to, what
//! decoding resolves from a stream, and the laws tying the two directions
//! together.  Every adapter's decoder honours the evolution rules: a record
//! observed with fewer fields than declared takes defaults for the rest, one
//! observed with more has the surplus skipped structurally.

use vstd::prelude::*;

use crate::error::{DecodeError, WireError};
use crate::frame::{frame_bytes, lemma_frame_round_trip, lemma_parse_frame_len, size_frame,
    value_frame};
use crate::wire::{blob_bytes, spec_read_blob, spec_read_uint, spec_skip, uint_bytes, Decoder,
    Encoder};
use crate::zigzag::{zigzag_of_i128, zigzag_of_i16, zigzag_of_i32, zigzag_of_i64, zigzag_of_i8,
    unzigzag_of_u128, unzigzag_of_u16, unzigzag_of_u32, unzigzag_of_u64, unzigzag_of_u8};

verus! {

/// A value that can be written to the wire.
pub trait Encode {
    /// The exact bytes this value encodes to.
    spec fn wire(&self) -> Seq<u8>;

    /// The wire's limits hold at every level of the value: sequence and
    /// record lengths fit a `u32`, blob sizes a `u64`.
    spec fn encodable(&self) -> bool;

    /// Writes the value onto the encoder.
    fn encode(&self, encoder: &mut Encoder)
        requires
            self.encodable(),
        ensures
            final(encoder).bytes() == old(encoder).bytes() + self.wire(),
    ;

    /// An encoded value is one self-delimiting tree: skipping one value
    /// consumes exactly its bytes, whatever follows them on the stream.
    proof fn lemma_skippable(&self, rest: Seq<u8>)
        requires
            self.encodable(),
        ensures
            spec_skip(self.wire() + rest, 1) == Ok::<nat, WireError>(self.wire().len()),
    ;
}

/// A value that can be read back from the wire.
pub trait Decode: Sized {
    /// The mathematical model of a decoded value.
    type Model;

    /// This value's model.
    spec fn model(&self) -> Self::Model;

    /// What decoding resolves from the head of a stream: the model of the
    /// value returned and the bytes consumed, or the error.
    spec fn dec(b: Seq<u8>) -> Result<(Self::Model, nat), WireError>;

    /// Decoding consumes no more than the stream holds.
    proof fn lemma_dec_len(b: Seq<u8>)
        ensures
            Self::dec(b) matches Ok((m, n)) ==> n <= b.len(),
    ;

    /// The model of the default a consumer supplies for a field the producer
    /// did not send.
    spec fn default_model() -> Self::Model;

    /// That default value.
    fn default_value() -> (r: Self)
        ensures
            r.model() == Self::default_model(),
    ;

    /// Reads one value off the decoder, exactly as [`Self::dec`] says.
    fn decode(decoder: &mut Decoder) -> (r: Result<Self, DecodeError>)
        requires
            old(decoder).wf(),
        ensures
            final(decoder).wf(),
            final(decoder).reader.data == old(decoder).reader.data,
            final(decoder).reader.pos >= old(decoder).reader.pos,
            match r {
                Ok(v) => Self::dec(old(decoder).remaining()) matches Ok((m, n)) && v.model() == m
                    && final(decoder).reader.pos == old(decoder).reader.pos + n,
                Err(e) => Self::dec(old(decoder).remaining()) matches Err(we) && we == e@,
            },
    ;
}

/// A type whose two directions agree.
pub trait Codec: Encode + Decode {
    /// Round trip: a stream that starts with an encoded value decodes to that
    /// value's model, consuming exactly its bytes, whatever follows them.
    proof fn lemma_round_trip(&self, rest: Seq<u8>)
        requires
            self.encodable(),
        ensures
            Self::dec(self.wire() + rest) == Ok::<(Self::Model, nat), WireError>(
                (self.model(), self.wire().len()),
            ),
    ;
}

/// One plain scalar frame is skipped in exactly its own bytes.
pub proof fn lemma_uint_skippable(v: u128, rest: Seq<u8>)
    ensures
        spec_skip(uint_bytes(v) + rest, 1) == Ok::<nat, WireError>(uint_bytes(v).len()),
{
    lemma_frame_round_trip(value_frame(v), rest);
    let b = uint_bytes(v) + rest;
    assert(b.skip(uint_bytes(v).len() as int) =~= rest);
    assert(spec_skip(rest, 0) == Ok::<nat, WireError>(0nat));
}

/// Reading a scalar from a stream that starts with one yields it back and
/// consumes exactly its frame.
pub proof fn lemma_uint_round_trip(v: u128, rest: Seq<u8>)
    ensures
        spec_read_uint(uint_bytes(v) + rest) == Ok::<(u128, nat), WireError>(
            (v, uint_bytes(v).len() as nat),
        ),
{
    lemma_frame_round_trip(value_frame(v), rest);
}

/// Reading a blob from a stream that starts with one yields its bytes and
/// consumes exactly the size frame plus payload.
pub proof fn lemma_blob_round_trip(bs: Seq<u8>, rest: Seq<u8>)
    requires
        bs.len() <= u64::MAX,
    ensures
        spec_read_blob(blob_bytes(bs) + rest) == Ok::<(Seq<u8>, nat), WireError>(
            (bs, blob_bytes(bs).len() as nat),
        ),
{
    lemma_frame_round_trip(size_frame(bs.len() as u64), bs + rest);
    let hdr = frame_bytes(size_frame(bs.len() as u64));
    let b = blob_bytes(bs) + rest;
    assert(b =~= hdr + (bs + rest));
    assert(b.subrange(hdr.len() as int, (hdr.len() + bs.len()) as int) =~= bs);
}

/// A blob is skipped in exactly its size frame plus payload.
pub proof fn lemma_blob_skippable(bs: Seq<u8>, rest: Seq<u8>)
    requires
        bs.len() <= u64::MAX,
    ensures
        spec_skip(blob_bytes(bs) + rest, 1) == Ok::<nat, WireError>(blob_bytes(bs).len()),
{
    lemma_frame_round_trip(size_frame(bs.len() as u64), bs + rest);
    let hdr = frame_bytes(size_frame(bs.len() as u64));
    let b = blob_bytes(bs) + rest;
    assert(b =~= hdr + (bs + rest));
    assert(b.skip((hdr.len() + bs.len()) as int) =~= rest);
    assert(spec_skip(rest, 0) == Ok::<nat, WireError>(0nat));
}


impl Encode for u8 {
    open spec fn wire(&self) -> Seq<u8> {
        uint_bytes(*self as u128)
    }

    open spec fn encodable(&self) -> bool {
        true
    }

    fn encode(&self, encoder: &mut Encoder) {
        encoder.encode_u8(self);
    }

    proof fn lemma_skippable(&self, rest: Seq<u8>) {
        lemma_uint_skippable(*self as u128, rest);
    }
}

impl Decode for u8 {
    type Model = u8;

    open spec fn model(&self) -> u8 {
        *self
    }

    open spec fn dec(b: Seq<u8>) -> Result<(u8, nat), WireError> {
        match spec_read_uint(b) {
            Ok((v, n)) => Ok((((v % 0x100) as u8), n)),
            Err(e) => Err(e),
        }
    }

    proof fn lemma_dec_len(b: Seq<u8>) {
        lemma_parse_frame_len(b);
    }

    open spec fn default_model() -> u8 {
        0
    }

    fn default_value() -> u8 {
        0
    }

    fn decode(decoder: &mut Decoder) -> (r: Result<u8, DecodeError>) {
        decoder.decode_u8()
    }
}

impl Codec for u8 {
    proof fn lemma_round_trip(&self, rest: Seq<u8>) {
        lemma_uint_round_trip(*self as u128, rest);
    }
}

impl Encode for u16 {
    open spec fn wire(&self) -> Seq<u8> {
        uint_bytes(*self as u128)
    }

    open spec fn encodable(&self) -> bool {
        true
    }

    fn encode(&self, encoder: &mut Encoder) {
        encoder.encode_u16(self);
    }

    proof fn lemma_skippable(&self, rest: Seq<u8>) {
        lemma_uint_skippable(*self as u128, rest);
    }
}

impl Decode for u16 {
    type Model = u16;

    open spec fn model(&self) -> u16 {
        *self
    }

    open spec fn dec(b: Seq<u8>) -> Result<(u16, nat), WireError> {
        match spec_read_uint(b) {
            Ok((v, n)) => Ok((((v % 0x1_0000) as u16), n)),
            Err(e) => Err(e),
        }
    }

    proof fn lemma_dec_len(b: Seq<u8>) {
        lemma_parse_frame_len(b);
    }

    open spec fn default_model() -> u16 {
        0
    }

    fn default_value() -> u16 {
        0
    }

    fn decode(decoder: &mut Decoder) -> (r: Result<u16, DecodeError>) {
        decoder.decode_u16()
    }
}

impl Codec for u16 {
    proof fn lemma_round_trip(&self, rest: Seq<u8>) {
        lemma_uint_round_trip(*self as u128, rest);
    }
}

impl Encode for u32 {
    open spec fn wire(&self) -> Seq<u8> {
        uint_bytes(*self as u128)
    }

    open spec fn encodable(&self) -> bool {
        true
    }

    fn encode(&self, encoder: &mut Encoder) {
        encoder.encode_u32(self);
    }

    proof fn lemma_skippable(&self, rest: Seq<u8>) {
        lemma_uint_skippable(*self as u128, rest);
    }
}

impl Decode for u32 {
    type Model = u32;

    open spec fn model(&self) -> u32 {
        *self
    }

    open spec fn dec(b: Seq<u8>) -> Result<(u32, nat), WireError> {
        match spec_read_uint(b) {
            Ok((v, n)) => Ok((((v % 0x1_0000_0000) as u32), n)),
            Err(e) => Err(e),
        }
    }

    proof fn lemma_dec_len(b: Seq<u8>) {
        lemma_parse_frame_len(b);
    }

    open spec fn default_model() -> u32 {
        0
    }

    fn default_value() -> u32 {
        0
    }

    fn decode(decoder: &mut Decoder) -> (r: Result<u32, DecodeError>) {
        decoder.decode_u32()
    }
}

impl Codec for u32 {
    proof fn lemma_round_trip(&self, rest: Seq<u8>) {
        lemma_uint_round_trip(*self as u128, rest);
    }
}

impl Encode for u64 {
    open spec fn wire(&self) -> Seq<u8> {
        uint_bytes(*self as u128)
    }

    open spec fn encodable(&self) -> bool {
        true
    }

    fn encode(&self, encoder: &mut Encoder) {
        encoder.encode_u64(self);
    }

    proof fn lemma_skippable(&self, rest: Seq<u8>) {
        lemma_uint_skippable(*self as u128, rest);
    }
}

impl Decode for u64 {
    type Model = u64;

    open spec fn model(&self) -> u64 {
        *self
    }

    open spec fn dec(b: Seq<u8>) -> Result<(u64, nat), WireError> {
        match spec_read_uint(b) {
            Ok((v, n)) => Ok((((v % 0x1_0000_0000_0000_0000) as u64), n)),
            Err(e) => Err(e),
        }
    }

    proof fn lemma_dec_len(b: Seq<u8>) {
        lemma_parse_frame_len(b);
    }

    open spec fn default_model() -> u64 {
        0
    }

    fn default_value() -> u64 {
        0
    }

    fn decode(decoder: &mut Decoder) -> (r: Result<u64, DecodeError>) {
        decoder.decode_u64()
    }
}

impl Codec for u64 {
    proof fn lemma_round_trip(&self, rest: Seq<u8>) {
        lemma_uint_round_trip(*self as u128, rest);
    }
}

impl Encode for u128 {
    open spec fn wire(&self) -> Seq<u8> {
        uint_bytes(*self)
    }

    open spec fn encodable(&self) -> bool {
        true
    }

    fn encode(&self, encoder: &mut Encoder) {
        encoder.encode_u128(self);
    }

    proof fn lemma_skippable(&self, rest: Seq<u8>) {
        lemma_uint_skippable(*self, rest);
    }
}

impl Decode for u128 {
    type Model = u128;

    open spec fn model(&self) -> u128 {
        *self
    }

    open spec fn dec(b: Seq<u8>) -> Result<(u128, nat), WireError> {
        spec_read_uint(b)
    }

    proof fn lemma_dec_len(b: Seq<u8>) {
        lemma_parse_frame_len(b);
    }

    open spec fn default_model() -> u128 {
        0
    }

    fn default_value() -> u128 {
        0
    }

    fn decode(decoder: &mut Decoder) -> (r: Result<u128, DecodeError>) {
        decoder.decode_u128()
    }
}

impl Codec for u128 {
    proof fn lemma_round_trip(&self, rest: Seq<u8>) {
        lemma_uint_round_trip(*self, rest);
    }
}

impl Encode for i8 {
    open spec fn wire(&self) -> Seq<u8> {
        uint_bytes(zigzag_of_i8(*self) as u128)
    }

    open spec fn encodable(&self) -> bool {
        true
    }

    fn encode(&self, encoder: &mut Encoder) {
        encoder.encode_i8(self);
    }

    proof fn lemma_skippable(&self, rest: Seq<u8>) {
        lemma_uint_skippable(zigzag_of_i8(*self) as u128, rest);
    }
}

impl Decode for i8 {
    type Model = i8;

    open spec fn model(&self) -> i8 {
        *self
    }

    open spec fn dec(b: Seq<u8>) -> Result<(i8, nat), WireError> {
        match spec_read_uint(b) {
            Ok((v, n)) => Ok((unzigzag_of_u8((v % 0x100) as u8), n)),
            Err(e) => Err(e),
        }
    }

    proof fn lemma_dec_len(b: Seq<u8>) {
        lemma_parse_frame_len(b);
    }

    open spec fn default_model() -> i8 {
        0
    }

    fn default_value() -> i8 {
        0
    }

    fn decode(decoder: &mut Decoder) -> (r: Result<i8, DecodeError>) {
        decoder.decode_i8()
    }
}

impl Codec for i8 {
    proof fn lemma_round_trip(&self, rest: Seq<u8>) {
        lemma_uint_round_trip(zigzag_of_i8(*self) as u128, rest);
        crate::zigzag::lemma_zigzag_round_trip();
    }
}

impl Encode for i16 {
    open spec fn wire(&self) -> Seq<u8> {
        uint_bytes(zigzag_of_i16(*self) as u128)
    }

    open spec fn encodable(&self) -> bool {
        true
    }

    fn encode(&self, encoder: &mut Encoder) {
        encoder.encode_i16(self);
    }

    proof fn lemma_skippable(&self, rest: Seq<u8>) {
        lemma_uint_skippable(zigzag_of_i16(*self) as u128, rest);
    }
}

impl Decode for i16 {
    type Model = i16;

    open spec fn model(&self) -> i16 {
        *self
    }

    open spec fn dec(b: Seq<u8>) -> Result<(i16, nat), WireError> {
        match spec_read_uint(b) {
            Ok((v, n)) => Ok((unzigzag_of_u16((v % 0x1_0000) as u16), n)),
            Err(e) => Err(e),
        }
    }

    proof fn lemma_dec_len(b: Seq<u8>) {
        lemma_parse_frame_len(b);
    }

    open spec fn default_model() -> i16 {
        0
    }

    fn default_value() -> i16 {
        0
    }

    fn decode(decoder: &mut Decoder) -> (r: Result<i16, DecodeError>) {
        decoder.decode_i16()
    }
}

impl Codec for i16 {
    proof fn lemma_round_trip(&self, rest: Seq<u8>) {
        lemma_uint_round_trip(zigzag_of_i16(*self) as u128, rest);
        crate::zigzag::lemma_zigzag_round_trip();
    }
}

impl Encode for i32 {
    open spec fn wire(&self) -> Seq<u8> {
        uint_bytes(zigzag_of_i32(*self) as u128)
    }

    open spec fn encodable(&self) -> bool {
        true
    }

    fn encode(&self, encoder: &mut Encoder) {
        encoder.encode_i32(self);
    }

    proof fn lemma_skippable(&self, rest: Seq<u8>) {
        lemma_uint_skippable(zigzag_of_i32(*self) as u128, rest);
    }
}

impl Decode for i32 {
    type Model = i32;

    open spec fn model(&self) -> i32 {
        *self
    }

    open spec fn dec(b: Seq<u8>) -> Result<(i32, nat), WireError> {
        match spec_read_uint(b) {
            Ok((v, n)) => Ok((unzigzag_of_u32((v % 0x1_0000_0000) as u32), n)),
            Err(e) => Err(e),
        }
    }

    proof fn lemma_dec_len(b: Seq<u8>) {
        lemma_parse_frame_len(b);
    }

    open spec fn default_model() -> i32 {
        0
    }

    fn default_value() -> i32 {
        0
    }

    fn decode(decoder: &mut Decoder) -> (r: Result<i32, DecodeError>) {
        decoder.decode_i32()
    }
}

impl Codec for i32 {
    proof fn lemma_round_trip(&self, rest: Seq<u8>) {
        lemma_uint_round_trip(zigzag_of_i32(*self) as u128, rest);
        crate::zigzag::lemma_zigzag_round_trip();
    }
}

impl Encode for i64 {
    open spec fn wire(&self) -> Seq<u8> {
        uint_bytes(zigzag_of_i64(*self) as u128)
    }

    open spec fn encodable(&self) -> bool {
        true
    }

    fn encode(&self, encoder: &mut Encoder) {
        encoder.encode_i64(self);
    }

    proof fn lemma_skippable(&self, rest: Seq<u8>) {
        lemma_uint_skippable(zigzag_of_i64(*self) as u128, rest);
    }
}

impl Decode for i64 {
    type Model = i64;

    open spec fn model(&self) -> i64 {
        *self
    }

    open spec fn dec(b: Seq<u8>) -> Result<(i64, nat), WireError> {
        match spec_read_uint(b) {
            Ok((v, n)) => Ok((unzigzag_of_u64((v % 0x1_0000_0000_0000_0000) as u64), n)),
            Err(e) => Err(e),
        }
    }

    proof fn lemma_dec_len(b: Seq<u8>) {
        lemma_parse_frame_len(b);
    }

    open spec fn default_model() -> i64 {
        0
    }

    fn default_value() -> i64 {
        0
    }

    fn decode(decoder: &mut Decoder) -> (r: Result<i64, DecodeError>) {
        decoder.decode_i64()
    }
}

impl Codec for i64 {
    proof fn lemma_round_trip(&self, rest: Seq<u8>) {
        lemma_uint_round_trip(zigzag_of_i64(*self) as u128, rest);
        crate::zigzag::lemma_zigzag_round_trip();
    }
}

impl Encode for i128 {
    open spec fn wire(&self) -> Seq<u8> {
        uint_bytes(zigzag_of_i128(*self) as u128)
    }

    open spec fn encodable(&self) -> bool {
        true
    }

    fn encode(&self, encoder: &mut Encoder) {
        encoder.encode_i128(self);
    }

    proof fn lemma_skippable(&self, rest: Seq<u8>) {
        lemma_uint_skippable(zigzag_of_i128(*self) as u128, rest);
    }
}

impl Decode for i128 {
    type Model = i128;

    open spec fn model(&self) -> i128 {
        *self
    }

    open spec fn dec(b: Seq<u8>) -> Result<(i128, nat), WireError> {
        match spec_read_uint(b) {
            Ok((v, n)) => Ok((unzigzag_of_u128(v), n)),
            Err(e) => Err(e),
        }
    }

    proof fn lemma_dec_len(b: Seq<u8>) {
        lemma_parse_frame_len(b);
    }

    open spec fn default_model() -> i128 {
        0
    }

    fn default_value() -> i128 {
        0
    }

    fn decode(decoder: &mut Decoder) -> (r: Result<i128, DecodeError>) {
        decoder.decode_i128()
    }
}

impl Codec for i128 {
    proof fn lemma_round_trip(&self, rest: Seq<u8>) {
        lemma_uint_round_trip(zigzag_of_i128(*self) as u128, rest);
        crate::zigzag::lemma_zigzag_round_trip();
    }
}

impl Encode for bool {
    open spec fn wire(&self) -> Seq<u8> {
        uint_bytes(
            if *self {
                1u128
            } else {
                0u128
            },
        )
    }

    open spec fn encodable(&self) -> bool {
        true
    }

    fn encode(&self, encoder: &mut Encoder) {
        encoder.encode_bool(self);
    }

    proof fn lemma_skippable(&self, rest: Seq<u8>) {
        lemma_uint_skippable(
            if *self {
                1u128
            } else {
                0u128
            },
            rest,
        );
    }
}

impl Decode for bool {
    type Model = bool;

    open spec fn model(&self) -> bool {
        *self
    }

    open spec fn dec(b: Seq<u8>) -> Result<(bool, nat), WireError> {
        match spec_read_uint(b) {
            Ok((v, n)) => Ok(((v % 0x100 != 0), n)),
            Err(e) => Err(e),
        }
    }

    proof fn lemma_dec_len(b: Seq<u8>) {
        lemma_parse_frame_len(b);
    }

    open spec fn default_model() -> bool {
        false
    }

    fn default_value() -> bool {
        false
    }

    fn decode(decoder: &mut Decoder) -> (r: Result<bool, DecodeError>) {
        decoder.decode_bool()
    }
}

impl Codec for bool {
    proof fn lemma_round_trip(&self, rest: Seq<u8>) {
        lemma_uint_round_trip(
            if *self {
                1u128
            } else {
                0u128
            },
            rest,
        );
    }
}

impl Encode for char {
    open spec fn wire(&self) -> Seq<u8> {
        uint_bytes(*self as u128)
    }

    open spec fn encodable(&self) -> bool {
        true
    }

    fn encode(&self, encoder: &mut Encoder) {
        encoder.encode_char(self);
    }

    proof fn lemma_skippable(&self, rest: Seq<u8>) {
        lemma_uint_skippable(*self as u128, rest);
    }
}

impl Decode for char {
    type Model = char;

    open spec fn model(&self) -> char {
        *self
    }

    open spec fn dec(b: Seq<u8>) -> Result<(char, nat), WireError> {
        match spec_read_uint(b) {
            Ok((v, n)) => if vstd::utf8::is_scalar((v % 0x1_0000_0000) as u32) {
                Ok(((((v % 0x1_0000_0000) as u32) as char), n))
            } else {
                Err(WireError::BadChar)
            },
            Err(e) => Err(e),
        }
    }

    proof fn lemma_dec_len(b: Seq<u8>) {
        lemma_parse_frame_len(b);
    }

    open spec fn default_model() -> char {
        '\u{0}'
    }

    fn default_value() -> char {
        '\u{0}'
    }

    fn decode(decoder: &mut Decoder) -> (r: Result<char, DecodeError>) {
        let r = decoder.decode_char();
        proof {
            if r is Ok {
                let c = r->Ok_0;
                vstd::utf8::char_is_scalar(c);
                vstd::utf8::char_u32_cast(c, c as u32);
            }
        }
        r
    }
}

impl Codec for char {
    proof fn lemma_round_trip(&self, rest: Seq<u8>) {
        lemma_uint_round_trip(*self as u128, rest);
        vstd::utf8::char_is_scalar(*self);
        vstd::utf8::char_u32_cast(*self, *self as u32);
    }
}

impl Encode for String {
    open spec fn wire(&self) -> Seq<u8> {
        blob_bytes(vstd::utf8::encode_utf8(self@))
    }

    open spec fn encodable(&self) -> bool {
        vstd::utf8::encode_utf8(self@).len() <= u64::MAX
    }

    fn encode(&self, encoder: &mut Encoder) {
        encoder.encode_string(self.as_str());
    }

    proof fn lemma_skippable(&self, rest: Seq<u8>) {
        lemma_blob_skippable(vstd::utf8::encode_utf8(self@), rest);
    }
}

impl Decode for String {
    type Model = Seq<char>;

    open spec fn model(&self) -> Seq<char> {
        self@
    }

    open spec fn dec(b: Seq<u8>) -> Result<(Seq<char>, nat), WireError> {
        match spec_read_blob(b) {
            Ok((bs, n)) => if vstd::utf8::valid_utf8(bs) {
                Ok((vstd::utf8::decode_utf8(bs), n))
            } else {
                Err(WireError::Utf8)
            },
            Err(e) => Err(e),
        }
    }

    proof fn lemma_dec_len(b: Seq<u8>) {
        lemma_parse_frame_len(b);
    }

    open spec fn default_model() -> Seq<char> {
        Seq::empty()
    }

    fn default_value() -> (r: String) {
        String::new()
    }

    fn decode(decoder: &mut Decoder) -> (r: Result<String, DecodeError>) {
        decoder.decode_string()
    }
}

impl Codec for String {
    proof fn lemma_round_trip(&self, rest: Seq<u8>) {
        broadcast use vstd::utf8::encode_utf8_valid_utf8, vstd::utf8::encode_utf8_decode_utf8;

        lemma_blob_round_trip(vstd::utf8::encode_utf8(self@), rest);
    }
}

/// An owned byte vector that travels as one raw blob.
#[derive(Debug, PartialEq, Clone)]
pub struct ByteVec(pub Vec<u8>);

impl Default for ByteVec {
    fn default() -> (r: ByteVec)
        ensures
            r.0@ == Seq::<u8>::empty(),
    {
        ByteVec(Vec::new())
    }
}

impl Encode for ByteVec {
    open spec fn wire(&self) -> Seq<u8> {
        blob_bytes(self.0@)
    }

    open spec fn encodable(&self) -> bool {
        self.0@.len() <= u64::MAX
    }

    fn encode(&self, encoder: &mut Encoder) {
        encoder.encode_binary(self.0.as_slice());
    }

    proof fn lemma_skippable(&self, rest: Seq<u8>) {
        lemma_blob_skippable(self.0@, rest);
    }
}

impl Decode for ByteVec {
    type Model = Seq<u8>;

    open spec fn model(&self) -> Seq<u8> {
        self.0@
    }

    open spec fn dec(b: Seq<u8>) -> Result<(Seq<u8>, nat), WireError> {
        spec_read_blob(b)
    }

    proof fn lemma_dec_len(b: Seq<u8>) {
        lemma_parse_frame_len(b);
    }

    open spec fn default_model() -> Seq<u8> {
        Seq::empty()
    }

    fn default_value() -> (r: ByteVec) {
        ByteVec(Vec::new())
    }

    fn decode(decoder: &mut Decoder) -> (r: Result<ByteVec, DecodeError>) {
        match decoder.decode_binary(None) {
            Ok(v) => Ok(ByteVec(v)),
            Err(e) => Err(e),
        }
    }
}

impl Codec for ByteVec {
    proof fn lemma_round_trip(&self, rest: Seq<u8>) {
        lemma_blob_round_trip(self.0@, rest);
    }
}

/// A byte array of declared size `N`: a raw blob whose observed size must
/// be exactly `N`.
#[derive(Debug, PartialEq, Clone)]
pub struct ByteArr<const N: usize>(pub Vec<u8>);

impl<const N: usize> Default for ByteArr<N> {
    fn default() -> (r: ByteArr<N>)
        ensures
            r.0@ == Seq::new(N as nat, |i: int| 0u8),
    {
        <ByteArr<N> as Decode>::default_value()
    }
}

impl<const N: usize> Encode for ByteArr<N> {
    open spec fn wire(&self) -> Seq<u8> {
        blob_bytes(self.0@)
    }

    open spec fn encodable(&self) -> bool {
        self.0@.len() == N
    }

    fn encode(&self, encoder: &mut Encoder) {
        encoder.encode_binary(self.0.as_slice());
    }

    proof fn lemma_skippable(&self, rest: Seq<u8>) {
        lemma_blob_skippable(self.0@, rest);
    }
}

impl<const N: usize> Decode for ByteArr<N> {
    type Model = Seq<u8>;

    open spec fn model(&self) -> Seq<u8> {
        self.0@
    }

    open spec fn dec(b: Seq<u8>) -> Result<(Seq<u8>, nat), WireError> {
        match spec_read_blob(b) {
            Ok((bs, n)) => if bs.len() == N {
                Ok((bs, n))
            } else {
                Err(WireError::BadLength)
            },
            Err(e) => Err(e),
        }
    }

    proof fn lemma_dec_len(b: Seq<u8>) {
        lemma_parse_frame_len(b);
    }

    open spec fn default_model() -> Seq<u8> {
        Seq::new(N as nat, |i: int| 0u8)
    }

    fn default_value() -> (r: ByteArr<N>) {
        let mut v: Vec<u8> = Vec::new();
        let mut i: usize = 0;
        while i < N
            invariant
                i <= N,
                v@ =~= Seq::new(i as nat, |j: int| 0u8),
            decreases N - i,
        {
            v.push(0);
            proof {
                assert(v@ =~= Seq::new((i + 1) as nat, |j: int| 0u8));
            }
            i = i + 1;
        }
        ByteArr(v)
    }

    fn decode(decoder: &mut Decoder) -> (r: Result<ByteArr<N>, DecodeError>) {
        let v = match decoder.decode_binary(Some(N)) {
            Ok(v) => v,
            Err(e) => {
                return Err(e);
            },
        };
        if v.len() == N {
            Ok(ByteArr(v))
        } else {
            Err(DecodeError::BadLength)
        }
    }
}

impl<const N: usize> Codec for ByteArr<N> {
    proof fn lemma_round_trip(&self, rest: Seq<u8>) {
        lemma_blob_round_trip(self.0@, rest);
    }
}

} // verus!
