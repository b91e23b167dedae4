//! Adapters for the parametric shapes: sequences, owning pointers, and the
//! optional value (a two-variant union named "Option").

use vstd::prelude::*;

use crate::codec::{lemma_uint_skippable, Codec, Decode, Encode};
use crate::error::{DecodeError, WireError};
use crate::frame::{frame_bytes, len_frame, lemma_frame_round_trip, lemma_parse_frame_len,
    VarIntLen};
use crate::wire::{enum_head_bytes, spec_read_enum_head, spec_read_len, spec_skip, Decoder,
    Encoder};

verus! {

/// The concatenated wire forms of a sequence of values.
pub open spec fn wire_elems<T: Encode>(s: Seq<T>) -> Seq<u8>
    decreases s.len(),
{
    if s.len() == 0 {
        Seq::empty()
    } else {
        s[0].wire() + wire_elems(s.drop_first())
    }
}

/// The models of a sequence of values.
pub open spec fn models_of<T: Decode>(s: Seq<T>) -> Seq<T::Model> {
    s.map_values(|x: T| x.model())
}

/// What decoding `n` consecutive values resolves: their models and the bytes
/// consumed, or the first error.
pub open spec fn dec_elems<T: Decode>(b: Seq<u8>, n: nat) -> Result<
    (Seq<T::Model>, nat),
    WireError,
>
    decreases n,
{
    if n == 0 {
        Ok((Seq::empty(), 0nat))
    } else {
        match T::dec(b) {
            Err(e) => Err(e),
            Ok((m, c)) => match dec_elems::<T>(b.skip(c as int), (n - 1) as nat) {
                Err(e) => Err(e),
                Ok((ms, d)) => Ok((seq![m] + ms, (c + d) as nat)),
            },
        }
    }
}

pub proof fn lemma_wire_elems_snoc<T: Encode>(s: Seq<T>)
    requires
        s.len() > 0,
    ensures
        wire_elems(s) == wire_elems(s.drop_last()) + s.last().wire(),
    decreases s.len(),
{
    if s.len() == 1 {
        assert(wire_elems(s.drop_first()) =~= Seq::<u8>::empty());
        assert(wire_elems(s.drop_last()) =~= Seq::<u8>::empty());
        assert(wire_elems(s) =~= wire_elems(s.drop_last()) + s.last().wire());
    } else {
        lemma_wire_elems_snoc(s.drop_first());
        assert(s.drop_first().drop_last() =~= s.drop_last().drop_first());
        assert(s.drop_first().last() == s.last());
        assert(s.drop_last()[0] == s[0]);
        assert(wire_elems(s) =~= wire_elems(s.drop_last()) + s.last().wire());
    }
}

/// One more element extends the concatenated wire forms by its own.
pub proof fn lemma_wire_elems_step<T: Encode>(s: Seq<T>, i: int)
    requires
        0 <= i < s.len(),
    ensures
        wire_elems(s.take(i + 1)) == wire_elems(s.take(i)) + s[i].wire(),
{
    lemma_wire_elems_snoc(s.take(i + 1));
    assert(s.take(i + 1).drop_last() =~= s.take(i));
    assert(s.take(i + 1).last() == s[i]);
}

/// A row of encoded values is skipped in exactly its own bytes, one value
/// per skip count.
pub proof fn lemma_elems_skippable<T: Encode>(s: Seq<T>, rest: Seq<u8>)
    requires
        forall|i: int| 0 <= i < s.len() ==> (#[trigger] s[i]).encodable(),
    ensures
        spec_skip(wire_elems(s) + rest, s.len()) == Ok::<nat, WireError>(wire_elems(s).len()),
    decreases s.len(),
{
    if s.len() == 0 {
        assert(wire_elems(s) + rest =~= rest);
    } else {
        let x = s[0];
        let tail = wire_elems(s.drop_first());
        assert(x.encodable());
        x.lemma_skippable(tail + rest);
        crate::wire::lemma_spec_skip_split(
            x.wire() + (tail + rest),
            1,
            (s.len() - 1) as nat,
            x.wire().len(),
        );
        assert((x.wire() + (tail + rest)).skip(x.wire().len() as int) =~= tail + rest);
        lemma_elems_skippable(s.drop_first(), rest);
        assert(wire_elems(s) + rest =~= x.wire() + (tail + rest));
    }
}

/// Decoding a row of encoded values yields their models back, consuming
/// exactly their bytes.
pub proof fn lemma_dec_elems_round_trip<T: Codec>(s: Seq<T>, rest: Seq<u8>)
    requires
        forall|i: int| 0 <= i < s.len() ==> (#[trigger] s[i]).encodable(),
    ensures
        dec_elems::<T>(wire_elems(s) + rest, s.len()) == Ok::<(Seq<T::Model>, nat), WireError>(
            (models_of(s), wire_elems(s).len()),
        ),
    decreases s.len(),
{
    if s.len() == 0 {
        assert(wire_elems(s) + rest =~= rest);
        assert(models_of(s) =~= Seq::<T::Model>::empty());
    } else {
        let x = s[0];
        let tail = wire_elems(s.drop_first());
        assert(x.encodable());
        x.lemma_round_trip(tail + rest);
        assert(wire_elems(s) + rest =~= x.wire() + (tail + rest));
        assert((x.wire() + (tail + rest)).skip(x.wire().len() as int) =~= tail + rest);
        lemma_dec_elems_round_trip(s.drop_first(), rest);
        assert(models_of(s) =~= seq![x.model()] + models_of(s.drop_first()));
    }
}

impl<T: Encode> Encode for Vec<T> {
    /// A length frame, then each element's wire form in order.
    open spec fn wire(&self) -> Seq<u8> {
        frame_bytes(len_frame(self@.len() as u32)) + wire_elems(self@)
    }

    open spec fn encodable(&self) -> bool {
        self@.len() <= u32::MAX && forall|i: int|
            0 <= i < self@.len() ==> (#[trigger] self@[i]).encodable()
    }

    fn encode(&self, encoder: &mut Encoder) {
        encoder.encode_seq_begin(self.len());
        let ghost hdr = frame_bytes(len_frame(self@.len() as u32));
        let mut i: usize = 0;
        while i < self.len()
            invariant
                i <= self@.len(),
                self.encodable(),
                hdr == frame_bytes(len_frame(self@.len() as u32)),
                encoder.bytes() == old(encoder).bytes() + hdr + wire_elems(self@.take(i as int)),
            decreases self@.len() - i,
        {
            let x = &self[i];
            x.encode(encoder);
            proof {
                lemma_wire_elems_step(self@, i as int);
                assert(encoder.bytes() =~= old(encoder).bytes() + hdr + wire_elems(
                    self@.take(i + 1),
                ));
            }
            i = i + 1;
        }
        encoder.encode_seq_end();
        proof {
            assert(self@.take(self@.len() as int) =~= self@);
            assert(old(encoder).bytes() + hdr + wire_elems(self@) =~= old(encoder).bytes() + (hdr
                + wire_elems(self@)));
        }
    }

    proof fn lemma_skippable(&self, rest: Seq<u8>) {
        let n = self@.len() as u32;
        let elems = wire_elems(self@);
        lemma_frame_round_trip(len_frame(n), elems + rest);
        let hdr = frame_bytes(len_frame(n));
        let b = self.wire() + rest;
        assert(b =~= hdr + (elems + rest));
        assert(b.skip(hdr.len() as int) =~= elems + rest);
        lemma_elems_skippable(self@, rest);
        if n == 0 {
            assert(elems =~= Seq::<u8>::empty());
            assert(spec_skip(elems + rest, 0) == Ok::<nat, WireError>(0nat));
        }
    }
}

impl<T: Decode> Decode for Vec<T> {
    type Model = Seq<T::Model>;

    open spec fn model(&self) -> Seq<T::Model> {
        models_of(self@)
    }

    /// A length frame announces how many elements follow; each is decoded in
    /// turn.
    open spec fn dec(b: Seq<u8>) -> Result<(Seq<T::Model>, nat), WireError> {
        match spec_read_len(b) {
            Err(e) => Err(e),
            Ok((l, n)) => match dec_elems::<T>(b.skip(n as int), l as nat) {
                Err(e) => Err(e),
                Ok((ms, d)) => Ok((ms, (n + d) as nat)),
            },
        }
    }

    proof fn lemma_dec_len(b: Seq<u8>) {
        lemma_parse_frame_len(b);
        if Self::dec(b) is Ok {
            let (l, n) = spec_read_len(b)->Ok_0;
            lemma_dec_elems_len::<T>(b.skip(n as int), l as nat);
        }
    }

    open spec fn default_model() -> Seq<T::Model> {
        Seq::empty()
    }

    fn default_value() -> (r: Vec<T>) {
        let r: Vec<T> = Vec::new();
        proof {
            assert(models_of(r@) =~= Seq::<T::Model>::empty());
        }
        r
    }

    fn decode(decoder: &mut Decoder) -> (r: Result<Vec<T>, DecodeError>) {
        let ghost rem0 = old(decoder).remaining();
        let n = match decoder.decode_seq_begin(None) {
            Ok(n) => n,
            Err(e) => {
                return Err(e);
            },
        };
        proof {
            assert(decoder.remaining() =~= rem0.skip(
                (decoder.reader.pos - old(decoder).reader.pos) as int,
            ));
        }
        let mut out: Vec<T> = Vec::new();
        let mut i: usize = 0;
        while i < n
            invariant
                decoder.wf(),
                decoder.reader.data == old(decoder).reader.data,
                decoder.reader.pos >= old(decoder).reader.pos,
                i <= n,
                out@.len() == i,
                rem0 == old(decoder).remaining(),
                Self::dec(rem0) == (match dec_elems::<T>(decoder.remaining(), (n - i) as nat) {
                    Ok((ms, d)) => Ok::<(Seq<T::Model>, nat), WireError>(
                        (
                            models_of(out@) + ms,
                            ((decoder.reader.pos - old(decoder).reader.pos) + d) as nat,
                        ),
                    ),
                    Err(e) => Err(e),
                }),
            decreases n - i,
        {
            let ghost pre = decoder.remaining();
            let ghost out_pre = out@;
            let ghost d_pre = (decoder.reader.pos - old(decoder).reader.pos) as nat;
            let x = match T::decode(decoder) {
                Ok(x) => x,
                Err(e) => {
                    return Err(e);
                },
            };
            proof {
                assert(decoder.remaining() =~= pre.skip(
                    (decoder.reader.pos - old(decoder).reader.pos - d_pre) as int,
                ));
            }
            out.push(x);
            i = i + 1;
            proof {
                assert(models_of(out@) =~= models_of(out_pre) + seq![x.model()]);
                lemma_seq_concat_assoc(models_of(out_pre), seq![x.model()]);
            }
        }
        match decoder.decode_seq_end() {
            Ok(()) => {},
            Err(e) => {
                return Err(e);
            },
        };
        proof {
            assert(dec_elems::<T>(decoder.remaining(), 0) == Ok::<(Seq<T::Model>, nat), WireError>(
                (Seq::empty(), 0nat),
            ));
            assert(models_of(out@) + Seq::<T::Model>::empty() =~= models_of(out@));
        }
        Ok(out)
    }
}

/// Concatenation with a one-element sequence reassociates freely.
proof fn lemma_seq_concat_assoc<A>(s1: Seq<A>, s2: Seq<A>)
    ensures
        forall|s3: Seq<A>| (s1 + s2) + s3 =~= s1 + (s2 + s3),
{
}

/// Decoding a row of values consumes no more than the stream holds.
pub proof fn lemma_dec_elems_len<T: Decode>(b: Seq<u8>, n: nat)
    ensures
        dec_elems::<T>(b, n) matches Ok((ms, d)) ==> d <= b.len() && ms.len() == n,
    decreases n,
{
    if n > 0 {
        if dec_elems::<T>(b, n) is Ok {
            T::lemma_dec_len(b);
            let (m, c) = T::dec(b)->Ok_0;
            lemma_dec_elems_len::<T>(b.skip(c as int), (n - 1) as nat);
        }
    }
}

impl<T: Codec> Codec for Vec<T> {
    proof fn lemma_round_trip(&self, rest: Seq<u8>) {
        let n = self@.len() as u32;
        let elems = wire_elems(self@);
        lemma_frame_round_trip(len_frame(n), elems + rest);
        let hdr = frame_bytes(len_frame(n));
        let b = self.wire() + rest;
        assert(b =~= hdr + (elems + rest));
        assert(b.skip(hdr.len() as int) =~= elems + rest);
        lemma_dec_elems_round_trip(self@, rest);
        if n == 0 {
            assert(elems =~= Seq::<u8>::empty());
            assert(dec_elems::<T>(elems + rest, 0) == Ok::<(Seq<T::Model>, nat), WireError>(
                (Seq::empty(), 0nat),
            ));
            assert(models_of(self@) =~= Seq::<T::Model>::empty());
        }
    }
}

impl<T: Encode> Encode for Box<T> {
    /// An owning pointer is invisible on the wire: its value's form.
    open spec fn wire(&self) -> Seq<u8> {
        (**self).wire()
    }

    open spec fn encodable(&self) -> bool {
        (**self).encodable()
    }

    fn encode(&self, encoder: &mut Encoder) {
        (**self).encode(encoder);
    }

    proof fn lemma_skippable(&self, rest: Seq<u8>) {
        (**self).lemma_skippable(rest);
    }
}

impl<T: Decode> Decode for Box<T> {
    type Model = T::Model;

    open spec fn model(&self) -> T::Model {
        (**self).model()
    }

    open spec fn dec(b: Seq<u8>) -> Result<(T::Model, nat), WireError> {
        T::dec(b)
    }

    proof fn lemma_dec_len(b: Seq<u8>) {
        T::lemma_dec_len(b);
    }

    open spec fn default_model() -> T::Model {
        T::default_model()
    }

    fn default_value() -> (r: Box<T>) {
        Box::new(T::default_value())
    }

    fn decode(decoder: &mut Decoder) -> (r: Result<Box<T>, DecodeError>) {
        match T::decode(decoder) {
            Ok(x) => Ok(Box::new(x)),
            Err(e) => Err(e),
        }
    }
}

impl<T: Codec> Codec for Box<T> {
    proof fn lemma_round_trip(&self, rest: Seq<u8>) {
        (**self).lemma_round_trip(rest);
    }
}

impl<T: Encode> Encode for Option<T> {
    /// A union named "Option": `None` is the unit variant with tag 0, `Some`
    /// carries a one-field record under tag 1.
    open spec fn wire(&self) -> Seq<u8> {
        match self {
            Option::None => enum_head_bytes(0, 0),
            Option::Some(x) => enum_head_bytes(1, 1) + frame_bytes(len_frame(1)) + x.wire(),
        }
    }

    open spec fn encodable(&self) -> bool {
        match self {
            Option::None => true,
            Option::Some(x) => x.encodable(),
        }
    }

    fn encode(&self, encoder: &mut Encoder) {
        match self {
            Option::None => {
                encoder.encode_enum_begin(0, 0, "Option", "None");
                encoder.encode_enum_end();
            },
            Option::Some(x) => {
                encoder.encode_enum_begin(1, 1, "Option", "Some");
                encoder.encode_struct_begin(1, None);
                encoder.encode_elem_begin(0, None);
                x.encode(encoder);
                encoder.encode_elem_end();
                encoder.encode_struct_end();
                encoder.encode_enum_end();
                proof {
                    assert(encoder.bytes() =~= old(encoder).bytes() + (enum_head_bytes(1, 1)
                        + frame_bytes(len_frame(1)) + x.wire()));
                }
            },
        }
    }

    proof fn lemma_skippable(&self, rest: Seq<u8>) {
        match self {
            Option::None => {
                lemma_uint_skippable(0, rest);
            },
            Option::Some(x) => {
                let hdr = enum_head_bytes(1, 1);
                let shdr = frame_bytes(len_frame(1));
                let b = self.wire() + rest;
                lemma_frame_round_trip(VarIntLen::EnumTag(1), shdr + x.wire() + rest);
                assert(b =~= hdr + (shdr + x.wire() + rest));
                assert(b.skip(hdr.len() as int) =~= shdr + x.wire() + rest);
                lemma_frame_round_trip(len_frame(1), x.wire() + rest);
                assert((shdr + x.wire() + rest) =~= shdr + (x.wire() + rest));
                assert((shdr + x.wire() + rest).skip(shdr.len() as int) =~= x.wire() + rest);
                x.lemma_skippable(rest);
                assert(spec_skip(shdr + x.wire() + rest, 1) == Ok::<nat, WireError>(
                    (shdr.len() + x.wire().len()) as nat,
                ));
                assert(spec_skip(b, 1) == Ok::<nat, WireError>(
                    (hdr.len() + shdr.len() + x.wire().len()) as nat,
                ));
            },
        }
    }
}

impl<T: Decode> Decode for Option<T> {
    type Model = Option<T::Model>;

    open spec fn model(&self) -> Option<T::Model> {
        match self {
            Option::None => Option::None,
            Option::Some(x) => Option::Some(x.model()),
        }
    }

    /// The union evolution rules: tag 0 is `None` (any payload record is
    /// walked past), tag 1 is `Some` (a missing payload or an empty record
    /// yields the default, surplus fields are skipped), any other tag has no
    /// matching variant.
    open spec fn dec(b: Seq<u8>) -> Result<(Option<T::Model>, nat), WireError> {
        match spec_read_enum_head(b) {
            Err(e) => Err(e),
            Ok(((tag, plen), n)) => {
                let b1 = b.skip(n as int);
                if tag == 0 {
                    if plen == 0 {
                        Ok((Option::None, n))
                    } else {
                        match spec_read_len(b1) {
                            Err(e) => Err(e),
                            Ok((l, n2)) => match spec_skip(b1.skip(n2 as int), l as nat) {
                                Err(e) => Err(e),
                                Ok(m) => Ok((Option::None, (n + n2 + m) as nat)),
                            },
                        }
                    }
                } else if tag == 1 {
                    if plen == 0 {
                        Ok((Option::Some(T::default_model()), n))
                    } else {
                        match spec_read_len(b1) {
                            Err(e) => Err(e),
                            Ok((l, n2)) => {
                                let b2 = b1.skip(n2 as int);
                                if l == 0 {
                                    Ok((Option::Some(T::default_model()), (n + n2) as nat))
                                } else {
                                    match T::dec(b2) {
                                        Err(e) => Err(e),
                                        Ok((m0, c)) => if l > 1 {
                                            match spec_skip(b2.skip(c as int), (l - 1) as nat) {
                                                Err(e) => Err(e),
                                                Ok(mm) => Ok(
                                                    (Option::Some(m0), (n + n2 + c + mm) as nat),
                                                ),
                                            }
                                        } else {
                                            Ok((Option::Some(m0), (n + n2 + c) as nat))
                                        },
                                    }
                                }
                            },
                        }
                    }
                } else {
                    Err(WireError::UnknownVariant { enum_name: "Option"@, tag })
                }
            },
        }
    }

    proof fn lemma_dec_len(b: Seq<u8>) {
        lemma_parse_frame_len(b);
        if Self::dec(b) is Ok {
            let ((tag, plen), n) = spec_read_enum_head(b)->Ok_0;
            let b1 = b.skip(n as int);
            if plen != 0 {
                lemma_parse_frame_len(b1);
                if spec_read_len(b1) is Ok {
                    let (l, n2) = spec_read_len(b1)->Ok_0;
                    let b2 = b1.skip(n2 as int);
                    if tag == 0 {
                        lemma_spec_skip_len(b2, l as nat);
                    } else if tag == 1 && l > 0 {
                        T::lemma_dec_len(b2);
                        if T::dec(b2) is Ok {
                            let (m0, c) = T::dec(b2)->Ok_0;
                            lemma_spec_skip_len(b2.skip(c as int), (l - 1) as nat);
                        }
                    }
                }
            }
        }
    }

    open spec fn default_model() -> Option<T::Model> {
        Option::None
    }

    fn default_value() -> (r: Option<T>) {
        Option::None
    }

    /// On a tag with no matching variant, the error names the union and the
    /// tag, and nothing past the tag's own frame is consumed.
    fn decode(decoder: &mut Decoder) -> (r: Result<Option<T>, DecodeError>)
        ensures
            match spec_read_enum_head(old(decoder).remaining()) {
                Ok((q, n)) => q.0 >= 2 ==> (r matches Err(e) && e@ == (WireError::UnknownVariant {
                    enum_name: "Option"@,
                    tag: q.0,
                }) && final(decoder).reader.pos == old(decoder).reader.pos + n),
                Err(_) => true,
            },
    {
        let ghost rem0 = old(decoder).remaining();
        let (tag, enum_len) = match decoder.decode_enum_begin("Option") {
            Ok(p) => p,
            Err(e) => {
                return Err(e);
            },
        };
        proof {
            assert(decoder.remaining() =~= rem0.skip(
                (decoder.reader.pos - old(decoder).reader.pos) as int,
            ));
        }
        let v: Option<T> = if tag == 0 {
            if enum_len == 0 {
                Option::None
            } else {
                let ghost rem1 = decoder.remaining();
                let ghost p1 = decoder.reader.pos;
                let len = match decoder.decode_struct_begin(0, None) {
                    Ok(len) => len,
                    Err(e) => {
                        return Err(e);
                    },
                };
                proof {
                    assert(decoder.remaining() =~= rem1.skip((decoder.reader.pos - p1) as int));
                }
                match decoder.decode_skip(len) {
                    Ok(()) => {},
                    Err(e) => {
                        return Err(e);
                    },
                };
                match decoder.decode_struct_end() {
                    Ok(()) => {},
                    Err(e) => {
                        return Err(e);
                    },
                };
                Option::None
            }
        } else if tag == 1 {
            if enum_len == 0 {
                Option::Some(T::default_value())
            } else {
                let ghost rem1 = decoder.remaining();
                let ghost p1 = decoder.reader.pos;
                let len = match decoder.decode_struct_begin(1, None) {
                    Ok(len) => len,
                    Err(e) => {
                        return Err(e);
                    },
                };
                proof {
                    assert(decoder.remaining() =~= rem1.skip((decoder.reader.pos - p1) as int));
                }
                let ghost rem2 = decoder.remaining();
                let ghost p2 = decoder.reader.pos;
                let field0 = if len > 0 {
                    match decoder.decode_elem_begin(0, None) {
                        Ok(()) => {},
                        Err(e) => {
                            return Err(e);
                        },
                    };
                    let x = match T::decode(decoder) {
                        Ok(x) => x,
                        Err(e) => {
                            return Err(e);
                        },
                    };
                    match decoder.decode_elem_end() {
                        Ok(()) => {},
                        Err(e) => {
                            return Err(e);
                        },
                    };
                    proof {
                        assert(decoder.remaining() =~= rem2.skip(
                            (decoder.reader.pos - p2) as int,
                        ));
                    }
                    x
                } else {
                    T::default_value()
                };
                if len > 1 {
                    match decoder.decode_skip(len - 1) {
                        Ok(()) => {},
                        Err(e) => {
                            return Err(e);
                        },
                    };
                }
                match decoder.decode_struct_end() {
                    Ok(()) => {},
                    Err(e) => {
                        return Err(e);
                    },
                };
                Option::Some(field0)
            }
        } else {
            return Err(DecodeError::UnknownVariant { enum_name: "Option".to_owned(), tag });
        };
        match decoder.decode_enum_end() {
            Ok(()) => {},
            Err(e) => {
                return Err(e);
            },
        };
        Ok(v)
    }
}

impl Encode for () {
    /// The empty record: a zero-length frame.
    open spec fn wire(&self) -> Seq<u8> {
        frame_bytes(len_frame(0))
    }

    open spec fn encodable(&self) -> bool {
        true
    }

    fn encode(&self, encoder: &mut Encoder) {
        encoder.encode_struct_begin(0, None);
        encoder.encode_struct_end();
    }

    proof fn lemma_skippable(&self, rest: Seq<u8>) {
        lemma_frame_round_trip(len_frame(0), rest);
        let b = self.wire() + rest;
        assert(b.skip(1) =~= rest);
        assert(spec_skip(rest, 0) == Ok::<nat, WireError>(0nat));
    }
}

impl Decode for () {
    type Model = ();

    open spec fn model(&self) -> () {
        ()
    }

    /// Whatever the observed record holds is walked past.
    open spec fn dec(b: Seq<u8>) -> Result<((), nat), WireError> {
        match spec_read_len(b) {
            Err(e) => Err(e),
            Ok((l, n)) => match spec_skip(b.skip(n as int), l as nat) {
                Err(e) => Err(e),
                Ok(m) => Ok(((), (n + m) as nat)),
            },
        }
    }

    proof fn lemma_dec_len(b: Seq<u8>) {
        lemma_parse_frame_len(b);
        if spec_read_len(b) is Ok {
            let (l, n) = spec_read_len(b)->Ok_0;
            lemma_spec_skip_len(b.skip(n as int), l as nat);
        }
    }

    open spec fn default_model() -> () {
        ()
    }

    fn default_value() -> (r: ()) {
        ()
    }

    fn decode(decoder: &mut Decoder) -> (r: Result<(), DecodeError>) {
        let ghost rem0 = old(decoder).remaining();
        let ghost p0 = decoder.reader.pos;
        let len = match decoder.decode_struct_begin(0, None) {
            Ok(len) => len,
            Err(e) => {
                return Err(e);
            },
        };
        proof {
            assert(decoder.remaining() =~= rem0.skip((decoder.reader.pos - p0) as int));
        }
        match decoder.decode_skip(len) {
            Ok(()) => {},
            Err(e) => {
                return Err(e);
            },
        };
        match decoder.decode_struct_end() {
            Ok(()) => {},
            Err(e) => {
                return Err(e);
            },
        };
        Ok(())
    }
}

impl Codec for () {
    proof fn lemma_round_trip(&self, rest: Seq<u8>) {
        lemma_frame_round_trip(len_frame(0), rest);
        let b = self.wire() + rest;
        assert(b.skip(1) =~= rest);
        assert(spec_skip(rest, 0) == Ok::<nat, WireError>(0nat));
    }
}

impl<T0: Encode> Encode for (T0,) {
    /// A one-field record.
    open spec fn wire(&self) -> Seq<u8> {
        frame_bytes(len_frame(1)) + self.0.wire()
    }

    open spec fn encodable(&self) -> bool {
        self.0.encodable()
    }

    fn encode(&self, encoder: &mut Encoder) {
        encoder.encode_struct_begin(1, None);
        encoder.encode_elem_begin(0, None);
        self.0.encode(encoder);
        encoder.encode_elem_end();
        encoder.encode_struct_end();
        proof {
            assert(encoder.bytes() =~= old(encoder).bytes() + (frame_bytes(len_frame(1))
                + self.0.wire()));
        }
    }

    proof fn lemma_skippable(&self, rest: Seq<u8>) {
        let shdr = frame_bytes(len_frame(1));
        let b = self.wire() + rest;
        lemma_frame_round_trip(len_frame(1), self.0.wire() + rest);
        assert(b =~= shdr + (self.0.wire() + rest));
        assert(b.skip(shdr.len() as int) =~= self.0.wire() + rest);
        self.0.lemma_skippable(rest);
        assert(spec_skip(b, 1) == Ok::<nat, WireError>(
            (shdr.len() + self.0.wire().len()) as nat,
        ));
    }
}

impl<T0: Decode> Decode for (T0,) {
    type Model = (T0::Model,);

    open spec fn model(&self) -> (T0::Model,) {
        (self.0.model(),)
    }

    /// The record evolution rules at arity one: an absent field takes its
    /// default, surplus observed fields are skipped.
    open spec fn dec(b: Seq<u8>) -> Result<((T0::Model,), nat), WireError> {
        match spec_read_len(b) {
            Err(e) => Err(e),
            Ok((l, n)) => {
                let b1 = b.skip(n as int);
                if l == 0 {
                    Ok(((T0::default_model(),), n))
                } else {
                    match T0::dec(b1) {
                        Err(e) => Err(e),
                        Ok((m0, c0)) => if l > 1 {
                            match spec_skip(b1.skip(c0 as int), (l - 1) as nat) {
                                Err(e) => Err(e),
                                Ok(m) => Ok(((m0,), (n + c0 + m) as nat)),
                            }
                        } else {
                            Ok(((m0,), (n + c0) as nat))
                        },
                    }
                }
            },
        }
    }

    proof fn lemma_dec_len(b: Seq<u8>) {
        lemma_parse_frame_len(b);
        if spec_read_len(b) is Ok {
            let (l, n) = spec_read_len(b)->Ok_0;
            let b1 = b.skip(n as int);
            if l > 0 {
                T0::lemma_dec_len(b1);
                if T0::dec(b1) is Ok {
                    let (m0, c0) = T0::dec(b1)->Ok_0;
                    lemma_spec_skip_len(b1.skip(c0 as int), (l - 1) as nat);
                }
            }
        }
    }

    open spec fn default_model() -> (T0::Model,) {
        (T0::default_model(),)
    }

    fn default_value() -> (r: (T0,)) {
        (T0::default_value(),)
    }

    fn decode(decoder: &mut Decoder) -> (r: Result<(T0,), DecodeError>) {
        let ghost rem0 = old(decoder).remaining();
        let ghost p0 = decoder.reader.pos;
        let len = match decoder.decode_struct_begin(1, None) {
            Ok(len) => len,
            Err(e) => {
                return Err(e);
            },
        };
        proof {
            assert(decoder.remaining() =~= rem0.skip((decoder.reader.pos - p0) as int));
        }
        let ghost rem1 = decoder.remaining();
        let ghost p1 = decoder.reader.pos;
        let v0 = if len > 0 {
            match decoder.decode_elem_begin(0, None) {
                Ok(()) => {},
                Err(e) => {
                    return Err(e);
                },
            };
            let x = match T0::decode(decoder) {
                Ok(x) => x,
                Err(e) => {
                    return Err(e);
                },
            };
            match decoder.decode_elem_end() {
                Ok(()) => {},
                Err(e) => {
                    return Err(e);
                },
            };
            proof {
                assert(decoder.remaining() =~= rem1.skip((decoder.reader.pos - p1) as int));
            }
            x
        } else {
            T0::default_value()
        };
        if len > 1 {
            match decoder.decode_skip(len - 1) {
                Ok(()) => {},
                Err(e) => {
                    return Err(e);
                },
            };
        }
        match decoder.decode_struct_end() {
            Ok(()) => {},
            Err(e) => {
                return Err(e);
            },
        };
        Ok((v0,))
    }
}

impl<T0: Codec> Codec for (T0,) {
    proof fn lemma_round_trip(&self, rest: Seq<u8>) {
        let shdr = frame_bytes(len_frame(1));
        let b = self.wire() + rest;
        lemma_frame_round_trip(len_frame(1), self.0.wire() + rest);
        assert(b =~= shdr + (self.0.wire() + rest));
        assert(b.skip(shdr.len() as int) =~= self.0.wire() + rest);
        self.0.lemma_round_trip(rest);
    }
}

impl<T0: Encode, T1: Encode> Encode for (T0, T1) {
    /// A two-field record.
    open spec fn wire(&self) -> Seq<u8> {
        frame_bytes(len_frame(2)) + self.0.wire() + self.1.wire()
    }

    open spec fn encodable(&self) -> bool {
        self.0.encodable() && self.1.encodable()
    }

    fn encode(&self, encoder: &mut Encoder) {
        encoder.encode_struct_begin(2, None);
        encoder.encode_elem_begin(0, None);
        self.0.encode(encoder);
        encoder.encode_elem_end();
        encoder.encode_elem_begin(1, None);
        self.1.encode(encoder);
        encoder.encode_elem_end();
        encoder.encode_struct_end();
        proof {
            assert(encoder.bytes() =~= old(encoder).bytes() + (frame_bytes(len_frame(2))
                + self.0.wire() + self.1.wire()));
        }
    }

    proof fn lemma_skippable(&self, rest: Seq<u8>) {
        let shdr = frame_bytes(len_frame(2));
        let b = self.wire() + rest;
        lemma_frame_round_trip(len_frame(2), self.0.wire() + (self.1.wire() + rest));
        assert(b =~= shdr + (self.0.wire() + (self.1.wire() + rest)));
        assert(b.skip(shdr.len() as int) =~= self.0.wire() + (self.1.wire() + rest));
        self.0.lemma_skippable(self.1.wire() + rest);
        crate::wire::lemma_spec_skip_split(
            self.0.wire() + (self.1.wire() + rest),
            1,
            1,
            self.0.wire().len(),
        );
        assert((self.0.wire() + (self.1.wire() + rest)).skip(self.0.wire().len() as int) =~= self
            .1.wire() + rest);
        self.1.lemma_skippable(rest);
        assert(spec_skip(b, 1) == Ok::<nat, WireError>(
            (shdr.len() + self.0.wire().len() + self.1.wire().len()) as nat,
        ));
    }
}

impl<T0: Decode, T1: Decode> Decode for (T0, T1) {
    type Model = (T0::Model, T1::Model);

    open spec fn model(&self) -> (T0::Model, T1::Model) {
        (self.0.model(), self.1.model())
    }

    /// The record evolution rules at arity two: fields the producer did not
    /// send take their defaults, surplus observed fields are skipped.
    open spec fn dec(b: Seq<u8>) -> Result<((T0::Model, T1::Model), nat), WireError> {
        match spec_read_len(b) {
            Err(e) => Err(e),
            Ok((l, n)) => {
                let b1 = b.skip(n as int);
                if l == 0 {
                    Ok(((T0::default_model(), T1::default_model()), n))
                } else if l == 1 {
                    match T0::dec(b1) {
                        Err(e) => Err(e),
                        Ok((m0, c0)) => Ok(((m0, T1::default_model()), (n + c0) as nat)),
                    }
                } else {
                    match T0::dec(b1) {
                        Err(e) => Err(e),
                        Ok((m0, c0)) => {
                            let b2 = b1.skip(c0 as int);
                            match T1::dec(b2) {
                                Err(e) => Err(e),
                                Ok((m1, c1)) => if l > 2 {
                                    match spec_skip(b2.skip(c1 as int), (l - 2) as nat) {
                                        Err(e) => Err(e),
                                        Ok(m) => Ok(((m0, m1), (n + c0 + c1 + m) as nat)),
                                    }
                                } else {
                                    Ok(((m0, m1), (n + c0 + c1) as nat))
                                },
                            }
                        },
                    }
                }
            },
        }
    }

    proof fn lemma_dec_len(b: Seq<u8>) {
        lemma_parse_frame_len(b);
        if spec_read_len(b) is Ok {
            let (l, n) = spec_read_len(b)->Ok_0;
            let b1 = b.skip(n as int);
            if l > 0 {
                T0::lemma_dec_len(b1);
                if T0::dec(b1) is Ok && l > 1 {
                    let (m0, c0) = T0::dec(b1)->Ok_0;
                    let b2 = b1.skip(c0 as int);
                    T1::lemma_dec_len(b2);
                    if T1::dec(b2) is Ok {
                        let (m1, c1) = T1::dec(b2)->Ok_0;
                        lemma_spec_skip_len(b2.skip(c1 as int), (l - 2) as nat);
                    }
                }
            }
        }
    }

    open spec fn default_model() -> (T0::Model, T1::Model) {
        (T0::default_model(), T1::default_model())
    }

    fn default_value() -> (r: (T0, T1)) {
        (T0::default_value(), T1::default_value())
    }

    fn decode(decoder: &mut Decoder) -> (r: Result<(T0, T1), DecodeError>) {
        let ghost rem0 = old(decoder).remaining();
        let ghost p0 = decoder.reader.pos;
        let len = match decoder.decode_struct_begin(2, None) {
            Ok(len) => len,
            Err(e) => {
                return Err(e);
            },
        };
        proof {
            assert(decoder.remaining() =~= rem0.skip((decoder.reader.pos - p0) as int));
        }
        let ghost rem1 = decoder.remaining();
        let ghost p1 = decoder.reader.pos;
        let v0 = if len > 0 {
            match decoder.decode_elem_begin(0, None) {
                Ok(()) => {},
                Err(e) => {
                    return Err(e);
                },
            };
            let x = match T0::decode(decoder) {
                Ok(x) => x,
                Err(e) => {
                    return Err(e);
                },
            };
            match decoder.decode_elem_end() {
                Ok(()) => {},
                Err(e) => {
                    return Err(e);
                },
            };
            proof {
                assert(decoder.remaining() =~= rem1.skip((decoder.reader.pos - p1) as int));
            }
            x
        } else {
            T0::default_value()
        };
        let ghost rem2 = decoder.remaining();
        let ghost p2 = decoder.reader.pos;
        let v1 = if len > 1 {
            match decoder.decode_elem_begin(1, None) {
                Ok(()) => {},
                Err(e) => {
                    return Err(e);
                },
            };
            let x = match T1::decode(decoder) {
                Ok(x) => x,
                Err(e) => {
                    return Err(e);
                },
            };
            match decoder.decode_elem_end() {
                Ok(()) => {},
                Err(e) => {
                    return Err(e);
                },
            };
            proof {
                assert(decoder.remaining() =~= rem2.skip((decoder.reader.pos - p2) as int));
            }
            x
        } else {
            T1::default_value()
        };
        if len > 2 {
            match decoder.decode_skip(len - 2) {
                Ok(()) => {},
                Err(e) => {
                    return Err(e);
                },
            };
        }
        match decoder.decode_struct_end() {
            Ok(()) => {},
            Err(e) => {
                return Err(e);
            },
        };
        Ok((v0, v1))
    }
}

impl<T0: Codec, T1: Codec> Codec for (T0, T1) {
    proof fn lemma_round_trip(&self, rest: Seq<u8>) {
        let shdr = frame_bytes(len_frame(2));
        let b = self.wire() + rest;
        lemma_frame_round_trip(len_frame(2), self.0.wire() + (self.1.wire() + rest));
        assert(b =~= shdr + (self.0.wire() + (self.1.wire() + rest)));
        assert(b.skip(shdr.len() as int) =~= self.0.wire() + (self.1.wire() + rest));
        self.0.lemma_round_trip(self.1.wire() + rest);
        assert((self.0.wire() + (self.1.wire() + rest)).skip(self.0.wire().len() as int) =~= self
            .1.wire() + rest);
        self.1.lemma_round_trip(rest);
    }
}


impl<T0: Encode, T1: Encode, T2: Encode> Encode for (T0, T1, T2) {
    /// A three-field record.
    open spec fn wire(&self) -> Seq<u8> {
        frame_bytes(len_frame(3)) + self.0.wire() + self.1.wire() + self.2.wire()
    }

    open spec fn encodable(&self) -> bool {
        self.0.encodable() && self.1.encodable() && self.2.encodable()
    }

    fn encode(&self, encoder: &mut Encoder) {
        encoder.encode_struct_begin(3, None);
        encoder.encode_elem_begin(0, None);
        self.0.encode(encoder);
        encoder.encode_elem_end();
        encoder.encode_elem_begin(1, None);
        self.1.encode(encoder);
        encoder.encode_elem_end();
        encoder.encode_elem_begin(2, None);
        self.2.encode(encoder);
        encoder.encode_elem_end();
        encoder.encode_struct_end();
        proof {
            assert(encoder.bytes() =~= old(encoder).bytes() + (frame_bytes(len_frame(3))
                + self.0.wire() + self.1.wire() + self.2.wire()));
        }
    }

    proof fn lemma_skippable(&self, rest: Seq<u8>) {
        let shdr = frame_bytes(len_frame(3));
        let b = self.wire() + rest;
        lemma_frame_round_trip(len_frame(3), self.0.wire() + (self.1.wire() + (self.2.wire()
            + rest)));
        assert(b =~= shdr + (self.0.wire() + (self.1.wire() + (self.2.wire() + rest))));
        assert(b.skip(shdr.len() as int) =~= self.0.wire() + (self.1.wire() + (self.2.wire()
            + rest)));
        self.0.lemma_skippable(self.1.wire() + (self.2.wire() + rest));
        crate::wire::lemma_spec_skip_split(
            self.0.wire() + (self.1.wire() + (self.2.wire() + rest)),
            1,
            2,
            self.0.wire().len(),
        );
        assert((self.0.wire() + (self.1.wire() + (self.2.wire() + rest))).skip(
            self.0.wire().len() as int,
        ) =~= self.1.wire() + (self.2.wire() + rest));
        self.1.lemma_skippable(self.2.wire() + rest);
        crate::wire::lemma_spec_skip_split(
            self.1.wire() + (self.2.wire() + rest),
            1,
            1,
            self.1.wire().len(),
        );
        assert((self.1.wire() + (self.2.wire() + rest)).skip(self.1.wire().len() as int) =~= self
            .2.wire() + rest);
        self.2.lemma_skippable(rest);
        assert(spec_skip(b, 1) == Ok::<nat, WireError>(
            (shdr.len() + self.0.wire().len() + self.1.wire().len() + self.2.wire().len()) as nat,
        ));
    }
}

impl<T0: Decode, T1: Decode, T2: Decode> Decode for (T0, T1, T2) {
    type Model = (T0::Model, T1::Model, T2::Model);

    open spec fn model(&self) -> (T0::Model, T1::Model, T2::Model) {
        (self.0.model(), self.1.model(), self.2.model())
    }

    /// The record evolution rules at arity three.
    open spec fn dec(b: Seq<u8>) -> Result<((T0::Model, T1::Model, T2::Model), nat), WireError> {
        match spec_read_len(b) {
            Err(e) => Err(e),
            Ok((l, n)) => {
                let b1 = b.skip(n as int);
                if l == 0 {
                    Ok(((T0::default_model(), T1::default_model(), T2::default_model()), n))
                } else if l == 1 {
                    match T0::dec(b1) {
                        Err(e) => Err(e),
                        Ok((m0, c0)) => Ok(
                            ((m0, T1::default_model(), T2::default_model()), (n + c0) as nat),
                        ),
                    }
                } else if l == 2 {
                    match T0::dec(b1) {
                        Err(e) => Err(e),
                        Ok((m0, c0)) => match T1::dec(b1.skip(c0 as int)) {
                            Err(e) => Err(e),
                            Ok((m1, c1)) => Ok(
                                ((m0, m1, T2::default_model()), (n + c0 + c1) as nat),
                            ),
                        },
                    }
                } else {
                    match T0::dec(b1) {
                        Err(e) => Err(e),
                        Ok((m0, c0)) => {
                            let b2 = b1.skip(c0 as int);
                            match T1::dec(b2) {
                                Err(e) => Err(e),
                                Ok((m1, c1)) => {
                                    let b3 = b2.skip(c1 as int);
                                    match T2::dec(b3) {
                                        Err(e) => Err(e),
                                        Ok((m2, c2)) => if l > 3 {
                                            match spec_skip(b3.skip(c2 as int), (l - 3) as nat) {
                                                Err(e) => Err(e),
                                                Ok(m) => Ok(
                                                    ((m0, m1, m2), (n + c0 + c1 + c2 + m) as nat),
                                                ),
                                            }
                                        } else {
                                            Ok(((m0, m1, m2), (n + c0 + c1 + c2) as nat))
                                        },
                                    }
                                },
                            }
                        },
                    }
                }
            },
        }
    }

    proof fn lemma_dec_len(b: Seq<u8>) {
        lemma_parse_frame_len(b);
        if spec_read_len(b) is Ok {
            let (l, n) = spec_read_len(b)->Ok_0;
            let b1 = b.skip(n as int);
            if l > 0 {
                T0::lemma_dec_len(b1);
                if T0::dec(b1) is Ok && l > 1 {
                    let (m0, c0) = T0::dec(b1)->Ok_0;
                    let b2 = b1.skip(c0 as int);
                    T1::lemma_dec_len(b2);
                    if T1::dec(b2) is Ok && l > 2 {
                        let (m1, c1) = T1::dec(b2)->Ok_0;
                        let b3 = b2.skip(c1 as int);
                        T2::lemma_dec_len(b3);
                        if T2::dec(b3) is Ok {
                            let (m2, c2) = T2::dec(b3)->Ok_0;
                            lemma_spec_skip_len(b3.skip(c2 as int), (l - 3) as nat);
                        }
                    }
                }
            }
        }
    }

    open spec fn default_model() -> (T0::Model, T1::Model, T2::Model) {
        (T0::default_model(), T1::default_model(), T2::default_model())
    }

    fn default_value() -> (r: (T0, T1, T2)) {
        (T0::default_value(), T1::default_value(), T2::default_value())
    }

    fn decode(decoder: &mut Decoder) -> (r: Result<(T0, T1, T2), DecodeError>) {
        let ghost rem0 = old(decoder).remaining();
        let ghost p0 = decoder.reader.pos;
        let len = match decoder.decode_struct_begin(3, None) {
            Ok(len) => len,
            Err(e) => {
                return Err(e);
            },
        };
        proof {
            assert(decoder.remaining() =~= rem0.skip((decoder.reader.pos - p0) as int));
        }
        let ghost rem1 = decoder.remaining();
        let ghost p1 = decoder.reader.pos;
        let v0 = if len > 0 {
            let x = match T0::decode(decoder) {
                Ok(x) => x,
                Err(e) => {
                    return Err(e);
                },
            };
            proof {
                assert(decoder.remaining() =~= rem1.skip((decoder.reader.pos - p1) as int));
            }
            x
        } else {
            T0::default_value()
        };
        let ghost rem2 = decoder.remaining();
        let ghost p2 = decoder.reader.pos;
        let v1 = if len > 1 {
            let x = match T1::decode(decoder) {
                Ok(x) => x,
                Err(e) => {
                    return Err(e);
                },
            };
            proof {
                assert(decoder.remaining() =~= rem2.skip((decoder.reader.pos - p2) as int));
            }
            x
        } else {
            T1::default_value()
        };
        let ghost rem3 = decoder.remaining();
        let ghost p3 = decoder.reader.pos;
        let v2 = if len > 2 {
            let x = match T2::decode(decoder) {
                Ok(x) => x,
                Err(e) => {
                    return Err(e);
                },
            };
            proof {
                assert(decoder.remaining() =~= rem3.skip((decoder.reader.pos - p3) as int));
            }
            x
        } else {
            T2::default_value()
        };
        if len > 3 {
            match decoder.decode_skip(len - 3) {
                Ok(()) => {},
                Err(e) => {
                    return Err(e);
                },
            };
        }
        match decoder.decode_struct_end() {
            Ok(()) => {},
            Err(e) => {
                return Err(e);
            },
        };
        Ok((v0, v1, v2))
    }
}

impl<T0: Codec, T1: Codec, T2: Codec> Codec for (T0, T1, T2) {
    proof fn lemma_round_trip(&self, rest: Seq<u8>) {
        let shdr = frame_bytes(len_frame(3));
        let b = self.wire() + rest;
        lemma_frame_round_trip(len_frame(3), self.0.wire() + (self.1.wire() + (self.2.wire()
            + rest)));
        assert(b =~= shdr + (self.0.wire() + (self.1.wire() + (self.2.wire() + rest))));
        assert(b.skip(shdr.len() as int) =~= self.0.wire() + (self.1.wire() + (self.2.wire()
            + rest)));
        self.0.lemma_round_trip(self.1.wire() + (self.2.wire() + rest));
        assert((self.0.wire() + (self.1.wire() + (self.2.wire() + rest))).skip(
            self.0.wire().len() as int,
        ) =~= self.1.wire() + (self.2.wire() + rest));
        self.1.lemma_round_trip(self.2.wire() + rest);
        assert((self.1.wire() + (self.2.wire() + rest)).skip(self.1.wire().len() as int) =~= self
            .2.wire() + rest);
        self.2.lemma_round_trip(rest);
    }
}

/// Writes a fixed-size array: the same wire form as a sequence, the
/// declared length on the frame.
pub fn encode_arr<T: Encode>(values: &Vec<T>, encoder: &mut Encoder)
    requires
        values@.len() <= u32::MAX,
        forall|i: int| 0 <= i < values@.len() ==> (#[trigger] values@[i]).encodable(),
    ensures
        final(encoder).bytes() == old(encoder).bytes() + frame_bytes(
            len_frame(values@.len() as u32),
        ) + wire_elems(values@),
{
    encoder.encode_arr_begin(values.len());
    let ghost hdr = frame_bytes(len_frame(values@.len() as u32));
    let mut i: usize = 0;
    while i < values.len()
        invariant
            i <= values@.len(),
            forall|j: int| 0 <= j < values@.len() ==> (#[trigger] values@[j]).encodable(),
            hdr == frame_bytes(len_frame(values@.len() as u32)),
            encoder.bytes() == old(encoder).bytes() + hdr + wire_elems(values@.take(i as int)),
        decreases values@.len() - i,
    {
        let x = &values[i];
        x.encode(encoder);
        proof {
            lemma_wire_elems_step(values@, i as int);
            assert(encoder.bytes() =~= old(encoder).bytes() + hdr + wire_elems(
                values@.take(i + 1),
            ));
        }
        i = i + 1;
    }
    encoder.encode_arr_end();
    proof {
        assert(values@.take(values@.len() as int) =~= values@);
    }
}

/// Reads a fixed-size array of declared length `n`: the observed length must
/// be exactly `n`, anything else is fatal.
pub fn decode_arr<T: Decode>(decoder: &mut Decoder, n: usize) -> (r: Result<Vec<T>, DecodeError>)
    requires
        old(decoder).wf(),
    ensures
        final(decoder).wf(),
        final(decoder).reader.data == old(decoder).reader.data,
        final(decoder).reader.pos >= old(decoder).reader.pos,
        match spec_read_len(old(decoder).remaining()) {
            Err(we) => r matches Err(e) && e@ == we,
            Ok((l, c)) => if l != n {
                r matches Err(e) && e@ == WireError::BadLength
            } else {
                match dec_elems::<T>(old(decoder).remaining().skip(c as int), l as nat) {
                    Err(we) => r matches Err(e) && e@ == we,
                    Ok((ms, d)) => r matches Ok(v) && models_of(v@) == ms && final(decoder).reader.pos
                        == old(decoder).reader.pos + c + d,
                }
            },
        },
{
    let ghost rem0 = old(decoder).remaining();
    let observed = match decoder.decode_arr_begin(n) {
        Ok(observed) => observed,
        Err(e) => {
            return Err(e);
        },
    };
    if observed != n {
        return Err(DecodeError::BadLength);
    }
    proof {
        assert(decoder.remaining() =~= rem0.skip(
            (decoder.reader.pos - old(decoder).reader.pos) as int,
        ));
    }
    let mut out: Vec<T> = Vec::new();
    let mut i: usize = 0;
    while i < n
        invariant
            decoder.wf(),
            decoder.reader.data == old(decoder).reader.data,
            decoder.reader.pos >= old(decoder).reader.pos,
            i <= n,
            out@.len() == i,
            rem0 == old(decoder).remaining(),
            spec_read_len(rem0) matches Ok((l, c)) && l == n,
            decoder.reader.pos - old(decoder).reader.pos >= spec_read_len(rem0)->Ok_0.1,
            ({
                let c = spec_read_len(rem0)->Ok_0.1;
                match dec_elems::<T>(decoder.remaining(), (n - i) as nat) {
                    Ok((ms, d)) => dec_elems::<T>(rem0.skip(c as int), n as nat) == Ok::<
                        (Seq<T::Model>, nat),
                        WireError,
                    >(
                        (
                            models_of(out@) + ms,
                            ((decoder.reader.pos - old(decoder).reader.pos - c) + d) as nat,
                        ),
                    ),
                    Err(e) => dec_elems::<T>(rem0.skip(c as int), n as nat) == Err::<
                        (Seq<T::Model>, nat),
                        WireError,
                    >(e),
                }
            }),
        decreases n - i,
    {
        let ghost pre = decoder.remaining();
        let ghost out_pre = out@;
        let ghost d_pre = (decoder.reader.pos - old(decoder).reader.pos) as nat;
        let x = match T::decode(decoder) {
            Ok(x) => x,
            Err(e) => {
                return Err(e);
            },
        };
        proof {
            assert(decoder.remaining() =~= pre.skip(
                (decoder.reader.pos - old(decoder).reader.pos - d_pre) as int,
            ));
        }
        out.push(x);
        i = i + 1;
        proof {
            assert(models_of(out@) =~= models_of(out_pre) + seq![x.model()]);
            lemma_seq_concat_assoc(models_of(out_pre), seq![x.model()]);
        }
    }
    match decoder.decode_arr_end() {
        Ok(()) => {},
        Err(e) => {
            return Err(e);
        },
    };
    proof {
        assert(dec_elems::<T>(decoder.remaining(), 0) == Ok::<(Seq<T::Model>, nat), WireError>(
            (Seq::empty(), 0nat),
        ));
        assert(models_of(out@) + Seq::<T::Model>::empty() =~= models_of(out@));
        let c = spec_read_len(rem0)->Ok_0.1;
        let d = (decoder.reader.pos - old(decoder).reader.pos - c) as nat;
        assert(dec_elems::<T>(rem0.skip(c as int), n as nat) == Ok::<
            (Seq<T::Model>, nat),
            WireError,
        >((models_of(out@), d)));
    }
    Ok(out)
}

/// Skipping values consumes no more than the stream holds.
pub proof fn lemma_spec_skip_len(b: Seq<u8>, n: nat)
    ensures
        spec_skip(b, n) matches Ok(m) ==> m <= b.len(),
    decreases b.len(), n,
{
    if n > 0 && spec_skip(b, n) is Ok {
        crate::frame::lemma_parse_frame_len(b);
        let (f, c0) = crate::frame::parse_frame(b)->Some_0;
        let (consumed, queue) = match f {
            VarIntLen::Zero => (c0, (n - 1) as nat),
            VarIntLen::Value(_) => (c0, (n - 1) as nat),
            VarIntLen::EnumTag(_) => (c0, n),
            VarIntLen::StructLen(kk) => (c0, (n - 1 + kk) as nat),
            VarIntLen::ByteSize(s) => ((c0 + s) as nat, (n - 1) as nat),
        };
        lemma_spec_skip_len(b.skip(consumed as int), queue);
    }
}

impl<T: Codec> Codec for Option<T> {
    proof fn lemma_round_trip(&self, rest: Seq<u8>) {
        match self {
            Option::None => {
                lemma_frame_round_trip(crate::frame::value_frame(0), rest);
            },
            Option::Some(x) => {
                let hdr = enum_head_bytes(1, 1);
                let shdr = frame_bytes(len_frame(1));
                let b = self.wire() + rest;
                lemma_frame_round_trip(VarIntLen::EnumTag(1), shdr + x.wire() + rest);
                assert(b =~= hdr + (shdr + x.wire() + rest));
                assert(b.skip(hdr.len() as int) =~= shdr + x.wire() + rest);
                lemma_frame_round_trip(len_frame(1), x.wire() + rest);
                assert((shdr + x.wire() + rest) =~= shdr + (x.wire() + rest));
                assert((shdr + x.wire() + rest).skip(shdr.len() as int) =~= x.wire() + rest);
                x.lemma_round_trip(rest);
            },
        }
    }
}

} // verus!
