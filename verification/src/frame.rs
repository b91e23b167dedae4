//! The wire atom: a five-variant frame packed into one self-identifying
//! header byte plus up to sixteen little-endian payload bytes.
//!
//! Header layout, by range:
//!
//! * `0` — `Zero`: any category at value zero.
//! * `1 ..= 95` — `Value` literal, the value is the header itself.
//! * `96 ..= 127` — `EnumTag` literal, the tag is the header minus 96.
//! * `128 ..= 191` — `ByteSize` literal, the size is the low six bits plus one.
//! * `192 ..= 223` — `StructLen` literal, the length is the low five bits plus one.
//! * `224 ..= 239` — `Value`, followed by `header - 223` payload bytes.
//! * `240 ..= 247` — `ByteSize`, followed by `header - 239` payload bytes.
//! * `248 ..= 251` — `StructLen`, followed by `header - 247` payload bytes.
//! * `252 ..= 255` — `EnumTag`, followed by `header - 251` payload bytes.
//!
//! Every header byte resolves to exactly one shape, so reading a frame can
//! only fail when the stream ends early.

use vstd::prelude::*;

use crate::bytes::{le_bytes, le_val, lemma_le_bytes_len, lemma_le_val_bound, lemma_le_val_le_bytes,
    lemma_min_len_fits, lemma_min_len_le, lemma_pow256_pos, lemma_pow256_values, min_len, pow256};
use crate::error::DecodeError;
use crate::transport::{Reader, Writer};

verus! {

/// One frame: the category it announces and the number it carries.
#[derive(Clone, Copy, Debug, PartialEq, Eq, Structural)]
pub enum VarIntLen {
    /// Any of the four categories at value zero; followed by nothing.
    Zero,
    /// A scalar value or a unit union tag; followed by nothing.
    Value(u128),
    /// The size of a byte blob; followed by that many raw bytes.
    ByteSize(u64),
    /// The element count of a record or sequence; followed by that many values.
    StructLen(u32),
    /// A union tag; followed by exactly one value (the variant's record).
    EnumTag(u32),
}

/// Canonical frames, the ones the constructors build: a zero payload is
/// elided in favour of `Zero`.  `EnumTag(0)` stays: its category must remain
/// observable, since it announces a payload record where `Zero` does not.
pub open spec fn frame_wf(f: VarIntLen) -> bool {
    match f {
        VarIntLen::Zero => true,
        VarIntLen::Value(v) => v >= 1,
        VarIntLen::ByteSize(s) => s >= 1,
        VarIntLen::StructLen(n) => n >= 1,
        VarIntLen::EnumTag(_) => true,
    }
}

/// The semantic reading of a frame: `Value(0)`, `ByteSize(0)` and
/// `StructLen(0)` (which a reader can produce from a non-minimal stream)
/// all mean the same as `Zero`.
pub open spec fn frame_norm(f: VarIntLen) -> VarIntLen {
    match f {
        VarIntLen::Value(v) => if v == 0 { VarIntLen::Zero } else { f },
        VarIntLen::ByteSize(s) => if s == 0 { VarIntLen::Zero } else { f },
        VarIntLen::StructLen(n) => if n == 0 { VarIntLen::Zero } else { f },
        _ => f,
    }
}

/// The long form: a header holding the category mask and the payload's
/// byte count, then the value as minimal little-endian bytes.
pub open spec fn ext_bytes(mask: u8, v: nat) -> Seq<u8> {
    seq![(mask + min_len(v) - 1) as u8] + le_bytes(v, min_len(v))
}

/// The exact bytes the writer produces for a frame.
pub open spec fn frame_bytes(f: VarIntLen) -> Seq<u8> {
    match f {
        VarIntLen::Zero => seq![0u8],
        VarIntLen::Value(v) => if v == 0 {
            seq![0u8]
        } else if v <= 95 {
            seq![v as u8]
        } else {
            ext_bytes(224, v as nat)
        },
        VarIntLen::EnumTag(t) => if t <= 31 {
            seq![(96 + t) as u8]
        } else {
            ext_bytes(252, t as nat)
        },
        VarIntLen::ByteSize(s) => if s == 0 {
            seq![0u8]
        } else if s <= 64 {
            seq![(128 + s - 1) as u8]
        } else {
            ext_bytes(240, s as nat)
        },
        VarIntLen::StructLen(n) => if n == 0 {
            seq![0u8]
        } else if n <= 32 {
            seq![(192 + n - 1) as u8]
        } else {
            ext_bytes(248, n as nat)
        },
    }
}

/// What a reader resolves from the head of a byte string: the frame and the
/// number of bytes it occupies, or nothing when the string ends too early.
pub open spec fn parse_frame(b: Seq<u8>) -> Option<(VarIntLen, nat)> {
    if b.len() == 0 {
        None
    } else {
        let h = b[0];
        if h == 0 {
            Some((VarIntLen::Zero, 1nat))
        } else if h <= 95 {
            Some((VarIntLen::Value(h as u128), 1nat))
        } else if h <= 127 {
            Some((VarIntLen::EnumTag((h - 96) as u32), 1nat))
        } else if h <= 191 {
            Some((VarIntLen::ByteSize((h - 127) as u64), 1nat))
        } else if h <= 223 {
            Some((VarIntLen::StructLen((h - 191) as u32), 1nat))
        } else {
            let k = if h <= 239 { (h - 223) as nat }
                else if h <= 247 { (h - 239) as nat }
                else if h <= 251 { (h - 247) as nat }
                else { (h - 251) as nat };
            if b.len() < 1 + k {
                None
            } else {
                let v = le_val(b.subrange(1, 1 + k as int));
                if h <= 239 {
                    Some((VarIntLen::Value(v as u128), 1 + k))
                } else if h <= 247 {
                    Some((VarIntLen::ByteSize(v as u64), 1 + k))
                } else if h <= 251 {
                    Some((VarIntLen::StructLen(v as u32), 1 + k))
                } else {
                    Some((VarIntLen::EnumTag(v as u32), 1 + k))
                }
            }
        }
    }
}

/// How many payload bytes follow a header byte.
pub open spec fn spec_payload_len(h: u8) -> nat {
    if h < 224 {
        0
    } else if h <= 239 {
        (h - 223) as nat
    } else if h <= 247 {
        (h - 239) as nat
    } else if h <= 251 {
        (h - 247) as nat
    } else {
        (h - 251) as nat
    }
}

/// The number of payload bytes a header announces: what a transport must
/// still deliver before the frame can be resolved.
pub fn header_payload_len(h: u8) -> (k: usize)
    ensures
        k == spec_payload_len(h),
        forall|b: Seq<u8>|
            b.len() >= 1 && b[0] == h ==> (#[trigger] parse_frame(b) is Some <==> b.len() >= 1
                + k),
{
    if h < 224 {
        0
    } else if h <= 239 {
        (h - 223) as usize
    } else if h <= 247 {
        (h - 239) as usize
    } else if h <= 251 {
        (h - 247) as usize
    } else {
        (h - 251) as usize
    }
}

/// A parsed frame occupies at least its header byte and never more than the string.
pub proof fn lemma_parse_frame_len(b: Seq<u8>)
    ensures
        parse_frame(b) matches Some((f, n)) ==> 1 <= n <= b.len(),
{
}

/// The value the frame carries when the header is zero.
pub open spec fn value_frame(v: u128) -> VarIntLen {
    if v == 0 {
        VarIntLen::Zero
    } else {
        VarIntLen::Value(v)
    }
}

/// The canonical frame for a blob size.
pub open spec fn size_frame(s: u64) -> VarIntLen {
    if s == 0 {
        VarIntLen::Zero
    } else {
        VarIntLen::ByteSize(s)
    }
}

/// The canonical frame for a record or sequence length.
pub open spec fn len_frame(n: u32) -> VarIntLen {
    if n == 0 {
        VarIntLen::Zero
    } else {
        VarIntLen::StructLen(n)
    }
}

/// The value of a little-endian byte slice, for the constructors that take
/// the raw bytes of a scalar.
fn le_value_of(bytes: &[u8]) -> (v: u128)
    requires
        bytes@.len() <= 16,
    ensures
        v as nat == le_val(bytes@),
{
    proof {
        lemma_pow256_values();
    }
    let mut v: u128 = 0;
    let mut i: usize = bytes.len();
    while i > 0
        invariant
            i <= bytes@.len() <= 16,
            v as nat == le_val(bytes@.skip(i as int)),
        decreases i,
    {
        i = i - 1;
        proof {
            lemma_le_val_bound(bytes@.skip(i + 1));
            lemma_pow256_values();
            assert(pow256(bytes@.skip(i + 1).len()) <= pow256(15)) by {
                crate::bytes::lemma_pow256_mono(bytes@.skip(i + 1).len(), 15);
            };
            assert(256 * (v as nat) < 256 * pow256(15)) by (nonlinear_arith)
                requires
                    (v as nat) < pow256(15),
            ;
            assert(256 * pow256(15) == pow256(16));
            assert(bytes@.skip(i as int).drop_first() =~= bytes@.skip(i + 1));
        }
        v = v * 256 + bytes[i] as u128;
        assert(v as nat == le_val(bytes@.skip(i as int)));
    }
    assert(bytes@.skip(0) =~= bytes@);
    v
}

/// `min_len` computed by trimming trailing zero bytes off the value.
fn byte_count(v: u128) -> (k: usize)
    ensures
        k == min_len(v as nat),
        1 <= k <= 16,
        v < 0x1_0000_0000_0000_0000 ==> k <= 8,
        v < 0x1_0000_0000 ==> k <= 4,
{
    proof {
        lemma_pow256_values();
        lemma_min_len_le(v as nat, 16);
        if v < 0x1_0000_0000_0000_0000 {
            lemma_min_len_le(v as nat, 8);
        }
        if v < 0x1_0000_0000 {
            lemma_min_len_le(v as nat, 4);
        }
    }
    let mut k: usize = 1;
    let mut t: u128 = v / 256;
    while t > 0
        invariant
            min_len(v as nat) == k + (if t == 0 { 0int } else { min_len(t as nat) as int }),
            k >= 1,
            k <= min_len(v as nat),
            min_len(v as nat) <= 16,
        decreases t,
    {
        k = k + 1;
        t = t / 256;
    }
    k
}

impl VarIntLen {
    /// The zero frame.
    pub fn new() -> (f: VarIntLen)
        ensures
            f == VarIntLen::Zero,
            frame_wf(f),
    {
        VarIntLen::Zero
    }

    /// The canonical frame for a scalar value.
    pub fn from_value_u32(value: u32) -> (f: VarIntLen)
        ensures
            f == value_frame(value as u128),
            frame_wf(f),
    {
        Self::from_value_u128(value as u128)
    }

    /// The canonical frame for a scalar value.
    pub fn from_value_u128(value: u128) -> (f: VarIntLen)
        ensures
            f == value_frame(value),
            frame_wf(f),
    {
        if value == 0 {
            VarIntLen::Zero
        } else {
            VarIntLen::Value(value)
        }
    }

    /// The canonical frame for a scalar given as little-endian bytes.
    pub fn from_value_slice(bytes: &[u8]) -> (f: VarIntLen)
        requires
            bytes@.len() <= 16,
        ensures
            f == value_frame(le_val(bytes@) as u128),
            frame_wf(f),
    {
        proof {
            lemma_le_val_bound(bytes@);
            crate::bytes::lemma_pow256_mono(bytes@.len(), 16);
            lemma_pow256_values();
        }
        Self::from_value_u128(le_value_of(bytes))
    }

    /// The canonical frame for a byte-blob size.
    pub fn from_byte_size(size: u64) -> (f: VarIntLen)
        ensures
            f == size_frame(size),
            frame_wf(f),
    {
        if size == 0 {
            VarIntLen::Zero
        } else {
            VarIntLen::ByteSize(size)
        }
    }

    /// The canonical frame for a byte-blob size given as little-endian bytes.
    pub fn from_byte_size_slice(bytes: &[u8]) -> (f: VarIntLen)
        requires
            bytes@.len() <= 8,
        ensures
            f == size_frame(le_val(bytes@) as u64),
            frame_wf(f),
    {
        proof {
            lemma_le_val_bound(bytes@);
            crate::bytes::lemma_pow256_mono(bytes@.len(), 8);
            lemma_pow256_values();
        }
        Self::from_byte_size(le_value_of(bytes) as u64)
    }

    /// The canonical frame for a record or sequence length.
    pub fn from_struct_len(len: u32) -> (f: VarIntLen)
        ensures
            f == len_frame(len),
            frame_wf(f),
    {
        if len == 0 {
            VarIntLen::Zero
        } else {
            VarIntLen::StructLen(len)
        }
    }

    /// The canonical frame for a length given as little-endian bytes.
    pub fn from_struct_len_slice(bytes: &[u8]) -> (f: VarIntLen)
        requires
            bytes@.len() <= 4,
        ensures
            f == len_frame(le_val(bytes@) as u32),
            frame_wf(f),
    {
        proof {
            lemma_le_val_bound(bytes@);
            crate::bytes::lemma_pow256_mono(bytes@.len(), 4);
            lemma_pow256_values();
        }
        Self::from_struct_len(le_value_of(bytes) as u32)
    }

    /// The frame for a union tag with a payload record.  The tag keeps its
    /// category even at zero.
    pub fn from_enum_tag(tag: u32) -> (f: VarIntLen)
        ensures
            f == VarIntLen::EnumTag(tag),
            frame_wf(f),
    {
        VarIntLen::EnumTag(tag)
    }

    /// The tag frame built from little-endian bytes.
    pub fn from_enum_tag_slice(bytes: &[u8]) -> (f: VarIntLen)
        requires
            bytes@.len() <= 4,
        ensures
            f == VarIntLen::EnumTag(le_val(bytes@) as u32),
            frame_wf(f),
    {
        proof {
            lemma_le_val_bound(bytes@);
            crate::bytes::lemma_pow256_mono(bytes@.len(), 4);
            lemma_pow256_values();
        }
        Self::from_enum_tag(le_value_of(bytes) as u32)
    }

    /// Writes the frame in its minimal form and reports the bytes moved.
    pub fn write(&self, writer: &mut Writer) -> (n: usize)
        ensures
            final(writer).bytes() == old(writer).bytes() + frame_bytes(*self),
            n == frame_bytes(*self).len(),
    {
        match self {
            VarIntLen::Zero => writer.write_byte(0),
            VarIntLen::Value(v) => {
                let v = *v;
                if v == 0 {
                    writer.write_byte(0)
                } else if v <= 95 {
                    writer.write_byte(v as u8)
                } else {
                    write_ext(writer, 224, v)
                }
            },
            VarIntLen::EnumTag(t) => {
                let t = *t;
                if t <= 31 {
                    writer.write_byte(96 + t as u8)
                } else {
                    proof {
                        lemma_pow256_values();
                    }
                    write_ext(writer, 252, t as u128)
                }
            },
            VarIntLen::ByteSize(s) => {
                let s = *s;
                if s == 0 {
                    writer.write_byte(0)
                } else if s <= 64 {
                    writer.write_byte(128 + (s as u8 - 1))
                } else {
                    proof {
                        lemma_pow256_values();
                    }
                    write_ext(writer, 240, s as u128)
                }
            },
            VarIntLen::StructLen(n) => {
                let n = *n;
                if n == 0 {
                    writer.write_byte(0)
                } else if n <= 32 {
                    writer.write_byte(192 + (n as u8 - 1))
                } else {
                    proof {
                        lemma_pow256_values();
                    }
                    write_ext(writer, 248, n as u128)
                }
            },
        }
    }

    /// Reads one frame from the head of the stream.  Reports the stream's
    /// end as the only possible failure: every header byte is meaningful.
    pub fn from_reader(reader: &mut Reader) -> (r: Result<(VarIntLen, usize), DecodeError>)
        requires
            old(reader).wf(),
        ensures
            final(reader).wf(),
            final(reader).data == old(reader).data,
            final(reader).pos >= old(reader).pos,
            match r {
                Ok((f, n)) => {
                    &&& parse_frame(old(reader).remaining()) == Some((f, n as nat))
                    &&& final(reader).pos == old(reader).pos + n
                },
                Err(e) => {
                    &&& e == DecodeError::Eof
                    &&& parse_frame(old(reader).remaining()) is None
                },
            },
    {
        let hv = match reader.read(1) {
            Some(hv) => hv,
            None => {
                return Err(DecodeError::Eof);
            },
        };
        let h = hv[0];
        assert(h == old(reader).remaining()[0]);
        if h == 0 {
            Ok((VarIntLen::Zero, 1))
        } else if h <= 95 {
            Ok((VarIntLen::Value(h as u128), 1))
        } else if h <= 127 {
            Ok((VarIntLen::EnumTag((h - 96) as u32), 1))
        } else if h <= 191 {
            Ok((VarIntLen::ByteSize((h - 127) as u64), 1))
        } else if h <= 223 {
            Ok((VarIntLen::StructLen((h - 191) as u32), 1))
        } else {
            let k: usize = if h <= 239 {
                (h - 223) as usize
            } else if h <= 247 {
                (h - 239) as usize
            } else if h <= 251 {
                (h - 247) as usize
            } else {
                (h - 251) as usize
            };
            let payload = match reader.read(k) {
                Some(payload) => payload,
                None => {
                    return Err(DecodeError::Eof);
                },
            };
            assert(payload@ =~= old(reader).remaining().subrange(1, 1 + k as int));
            let val = le_value_of(payload.as_slice());
            proof {
                lemma_le_val_bound(payload@);
                if payload@.len() <= 8 {
                    crate::bytes::lemma_pow256_mono(payload@.len(), 8);
                }
                if payload@.len() <= 4 {
                    crate::bytes::lemma_pow256_mono(payload@.len(), 4);
                }
                lemma_pow256_values();
            }
            if h <= 239 {
                Ok((VarIntLen::Value(val), 1 + k))
            } else if h <= 247 {
                Ok((VarIntLen::ByteSize(val as u64), 1 + k))
            } else if h <= 251 {
                Ok((VarIntLen::StructLen(val as u32), 1 + k))
            } else {
                Ok((VarIntLen::EnumTag(val as u32), 1 + k))
            }
        }
    }
}

/// Reading back a written canonical frame yields that frame, whatever
/// follows it on the stream: writer/reader symmetry.
pub proof fn lemma_frame_round_trip(f: VarIntLen, rest: Seq<u8>)
    requires
        frame_wf(f),
    ensures
        parse_frame(frame_bytes(f) + rest) == Some((f, frame_bytes(f).len())),
{
    lemma_pow256_values();
    let b = frame_bytes(f) + rest;
    match f {
        VarIntLen::Zero => {
            assert(b[0] == 0);
        },
        VarIntLen::Value(v) => {
            if v <= 95 {
                assert(b[0] == v as u8);
            } else {
                lemma_ext_parses(224, v as nat, rest);
            }
        },
        VarIntLen::EnumTag(t) => {
            if t <= 31 {
                assert(b[0] == (96 + t) as u8);
            } else {
                lemma_ext_parses(252, t as nat, rest);
            }
        },
        VarIntLen::ByteSize(s) => {
            if s <= 64 {
                assert(b[0] == (128 + s - 1) as u8);
            } else {
                lemma_ext_parses(240, s as nat, rest);
            }
        },
        VarIntLen::StructLen(n) => {
            if n <= 32 {
                assert(b[0] == (192 + n - 1) as u8);
            } else {
                lemma_ext_parses(248, n as nat, rest);
            }
        },
    }
}

/// A long-form frame parses back to its category and value.
proof fn lemma_ext_parses(mask: u8, v: nat, rest: Seq<u8>)
    requires
        v >= 1,
        mask == 224 && v < pow256(16) || mask == 240 && v < pow256(8) || (mask == 248 || mask
            == 252) && v < pow256(4),
    ensures
        ({
            let k = min_len(v);
            let b = ext_bytes(mask, v) + rest;
            &&& 1 <= k
            &&& mask == 224 ==> k <= 16
            &&& mask == 240 ==> k <= 8
            &&& (mask == 248 || mask == 252) ==> k <= 4
            &&& b.len() >= 1 + k
            &&& b[0] == mask + k - 1
            &&& le_val(b.subrange(1, 1 + k as int)) == v
            &&& ext_bytes(mask, v).len() == 1 + k
        }),
{
    let k = min_len(v);
    lemma_min_len_fits(v);
    lemma_pow256_values();
    if mask == 224 {
        lemma_min_len_le(v, 16);
    } else if mask == 240 {
        lemma_min_len_le(v, 8);
    } else {
        lemma_min_len_le(v, 4);
    }
    lemma_le_bytes_len(v, k);
    let b = ext_bytes(mask, v) + rest;
    assert(b.subrange(1, 1 + k as int) =~= le_bytes(v, k));
    lemma_le_val_le_bytes(v, k);
}

/// The writer's encoding is minimal: no byte string that a reader resolves
/// to a frame meaning the same thing is shorter than the written one.
pub proof fn lemma_frame_minimality(f: VarIntLen, b: Seq<u8>, g: VarIntLen, n: nat)
    requires
        frame_wf(f),
        parse_frame(b) == Some((g, n)),
        frame_norm(g) == frame_norm(f),
    ensures
        frame_bytes(f).len() <= n,
{
    lemma_pow256_values();
    lemma_parse_frame_len(b);
    let h = b[0];
    match f {
        VarIntLen::Zero => {
        },
        VarIntLen::Value(v) => {
            if v <= 95 {
            } else {
                lemma_min_len_fits(v as nat);
                lemma_min_len_le(v as nat, 16);
                lemma_le_bytes_len(v as nat, min_len(v as nat));
                // only a long-form value header can carry a value above 95
                assert(224 <= h <= 239);
                let k = (h - 223) as nat;
                lemma_le_val_bound(b.subrange(1, 1 + k as int));
                assert((v as nat) < pow256(k));
                lemma_min_len_le(v as nat, k);
            }
        },
        VarIntLen::EnumTag(t) => {
            if t <= 31 {
            } else {
                lemma_min_len_fits(t as nat);
                lemma_min_len_le(t as nat, 4);
                lemma_le_bytes_len(t as nat, min_len(t as nat));
                assert(h >= 252);
                let k = (h - 251) as nat;
                lemma_le_val_bound(b.subrange(1, 1 + k as int));
                crate::bytes::lemma_pow256_mono(k, 4);
                assert((t as nat) < pow256(k));
                lemma_min_len_le(t as nat, k);
            }
        },
        VarIntLen::ByteSize(s) => {
            if s <= 64 {
            } else {
                lemma_min_len_fits(s as nat);
                lemma_min_len_le(s as nat, 8);
                lemma_le_bytes_len(s as nat, min_len(s as nat));
                assert(240 <= h <= 247);
                let k = (h - 239) as nat;
                lemma_le_val_bound(b.subrange(1, 1 + k as int));
                crate::bytes::lemma_pow256_mono(k, 8);
                assert((s as nat) < pow256(k));
                lemma_min_len_le(s as nat, k);
            }
        },
        VarIntLen::StructLen(m) => {
            if m <= 32 {
            } else {
                lemma_min_len_fits(m as nat);
                lemma_min_len_le(m as nat, 4);
                lemma_le_bytes_len(m as nat, min_len(m as nat));
                assert(248 <= h <= 251);
                let k = (h - 247) as nat;
                lemma_le_val_bound(b.subrange(1, 1 + k as int));
                crate::bytes::lemma_pow256_mono(k, 4);
                assert((m as nat) < pow256(k));
                lemma_min_len_le(m as nat, k);
            }
        },
    }
}

/// The writer's encoding is the unique one of its length: any byte string a
/// reader resolves to a frame meaning the same thing, in as few bytes, is
/// byte-for-byte the written one.
pub proof fn lemma_frame_encoding_unique(f: VarIntLen, b: Seq<u8>, g: VarIntLen, n: nat)
    requires
        frame_wf(f),
        parse_frame(b) == Some((g, n)),
        frame_norm(g) == frame_norm(f),
        n == frame_bytes(f).len(),
    ensures
        b.take(n as int) == frame_bytes(f),
{
    lemma_pow256_values();
    lemma_parse_frame_len(b);
    let h = b[0];
    match f {
        VarIntLen::Zero => {
            assert(b.take(1) =~= frame_bytes(f));
        },
        VarIntLen::Value(v) => {
            if v <= 95 {
                assert(b.take(1) =~= frame_bytes(f));
            } else {
                lemma_min_len_fits(v as nat);
                lemma_min_len_le(v as nat, 16);
                let k = min_len(v as nat);
                lemma_le_bytes_len(v as nat, k);
                assert(224 <= h <= 239);
                assert((h - 223) as nat == k);
                let payload = b.subrange(1, 1 + k as int);
                lemma_le_val_bound(payload);
                crate::bytes::lemma_pow256_mono(k, 16);
                assert(le_val(payload) == v as nat);
                crate::bytes::lemma_le_bytes_unique(payload);
                assert(b.take(n as int) =~= frame_bytes(f));
            }
        },
        VarIntLen::EnumTag(t) => {
            if t <= 31 {
                assert(b.take(1) =~= frame_bytes(f));
            } else {
                lemma_min_len_fits(t as nat);
                lemma_min_len_le(t as nat, 4);
                let k = min_len(t as nat);
                lemma_le_bytes_len(t as nat, k);
                assert(h >= 252);
                assert((h - 251) as nat == k);
                let payload = b.subrange(1, 1 + k as int);
                lemma_le_val_bound(payload);
                crate::bytes::lemma_pow256_mono(k, 4);
                assert(le_val(payload) == t as nat);
                crate::bytes::lemma_le_bytes_unique(payload);
                assert(b.take(n as int) =~= frame_bytes(f));
            }
        },
        VarIntLen::ByteSize(s) => {
            if s <= 64 {
                assert(b.take(1) =~= frame_bytes(f));
            } else {
                lemma_min_len_fits(s as nat);
                lemma_min_len_le(s as nat, 8);
                let k = min_len(s as nat);
                lemma_le_bytes_len(s as nat, k);
                assert(240 <= h <= 247);
                assert((h - 239) as nat == k);
                let payload = b.subrange(1, 1 + k as int);
                lemma_le_val_bound(payload);
                crate::bytes::lemma_pow256_mono(k, 8);
                assert(le_val(payload) == s as nat);
                crate::bytes::lemma_le_bytes_unique(payload);
                assert(b.take(n as int) =~= frame_bytes(f));
            }
        },
        VarIntLen::StructLen(m) => {
            if m <= 32 {
                assert(b.take(1) =~= frame_bytes(f));
            } else {
                lemma_min_len_fits(m as nat);
                lemma_min_len_le(m as nat, 4);
                let k = min_len(m as nat);
                lemma_le_bytes_len(m as nat, k);
                assert(248 <= h <= 251);
                assert((h - 247) as nat == k);
                let payload = b.subrange(1, 1 + k as int);
                lemma_le_val_bound(payload);
                crate::bytes::lemma_pow256_mono(k, 4);
                assert(le_val(payload) == m as nat);
                crate::bytes::lemma_le_bytes_unique(payload);
                assert(b.take(n as int) =~= frame_bytes(f));
            }
        },
    }
}

/// Writes the long form: category-and-count header, then the value's
/// minimal little-endian bytes.
fn write_ext(writer: &mut Writer, mask: u8, v: u128) -> (n: usize)
    requires
        v >= 1,
        mask == 224 || mask == 240 || mask == 248 || mask == 252,
        mask == 240 ==> v < 0x1_0000_0000_0000_0000,
        (mask == 248 || mask == 252) ==> v < 0x1_0000_0000,
    ensures
        final(writer).bytes() == old(writer).bytes() + ext_bytes(mask, v as nat),
        n == ext_bytes(mask, v as nat).len(),
{
    let k = byte_count(v);
    writer.write_byte(mask + (k as u8 - 1));
    let ghost base = writer.bytes();
    proof {
        assert(pow256(0) == 1);
        assert((v as nat) / pow256(0) == v as nat);
        assert(le_bytes(v as nat, 0) =~= Seq::<u8>::empty());
    }
    let mut t = v;
    let mut i: usize = 0;
    while i < k
        invariant
            i <= k,
            k == min_len(v as nat),
            k <= 16,
            t as nat == (v as nat) / pow256(i as nat),
            writer.bytes() == base + le_bytes(v as nat, i as nat),
        decreases k - i,
    {
        writer.write_byte((t % 256) as u8);
        proof {
            crate::bytes::lemma_le_bytes_snoc(v as nat, i as nat);
            lemma_pow256_pos(i as nat);
            assert((t as nat) / 256 == (v as nat) / pow256((i + 1) as nat)) by {
                vstd::arithmetic::div_mod::lemma_div_denominator(
                    v as int,
                    pow256(i as nat) as int,
                    256,
                );
                assert(pow256(i as nat) * 256 == pow256((i + 1) as nat));
            };
        }
        t = t / 256;
        i = i + 1;
    }
    proof {
        lemma_le_bytes_len(v as nat, min_len(v as nat));
        assert(writer.bytes() =~= old(writer).bytes() + ext_bytes(mask, v as nat));
    }
    1 + k
}

} // verus!
