//! The schema-evolution guarantees, stated across revisions of one type.
//!
//! A record's producer and consumer may declare different field counts: the
//! consumer decodes the fields both sides know, supplies defaults for the
//! ones only it declares, and skips the ones only the producer sent.  A
//! union tolerates a variant changing between unit and record-carrying form.
//! The laws here quantify over all field types and values; the two- and
//! three-field records stand for any adjacent pair of revisions.

use vstd::prelude::*;

use crate::codec::{Codec, Decode, Encode};
use crate::error::WireError;
use crate::frame::{frame_bytes, len_frame, lemma_frame_round_trip, value_frame, VarIntLen};
use crate::wire::{enum_head_bytes, uint_bytes};

verus! {

/// Round trip: for every encodable value of every codec type, decoding a
/// stream that starts with the value's encoding yields the value back and
/// consumes exactly its bytes, whatever follows them.
pub proof fn lemma_round_trip<T: Codec>(v: &T, rest: Seq<u8>)
    requires
        v.encodable(),
    ensures
        T::dec(v.wire() + rest) == Ok::<(T::Model, nat), WireError>(
            (v.model(), v.wire().len()),
        ),
{
    v.lemma_round_trip(rest);
}

/// Skip correctness: for any encoded value, skipping one value from the
/// stream position where it starts lands exactly on the byte after it.
pub proof fn lemma_skip_steps_over_value<T: Encode>(v: &T, rest: Seq<u8>)
    requires
        v.encodable(),
    ensures
        crate::wire::spec_skip(v.wire() + rest, 1) == Ok::<nat, WireError>(v.wire().len()),
{
    v.lemma_skippable(rest);
}

/// Forward compatibility: bytes written under a two-field declaration decode
/// under a later three-field declaration into the same first two fields,
/// with the new field taking its default; the whole encoding is consumed.
pub proof fn lemma_record_forward_compat<T0: Codec, T1: Codec, T2: Codec>(
    v: &(T0, T1),
    rest: Seq<u8>,
)
    requires
        v.encodable(),
    ensures
        <(T0, T1, T2)>::dec(v.wire() + rest) == Ok::<_, WireError>(
            ((v.0.model(), v.1.model(), T2::default_model()), v.wire().len()),
        ),
{
    let shdr = frame_bytes(len_frame(2));
    let b = v.wire() + rest;
    lemma_frame_round_trip(len_frame(2), v.0.wire() + (v.1.wire() + rest));
    assert(b =~= shdr + (v.0.wire() + (v.1.wire() + rest)));
    assert(b.skip(shdr.len() as int) =~= v.0.wire() + (v.1.wire() + rest));
    v.0.lemma_round_trip(v.1.wire() + rest);
    assert((v.0.wire() + (v.1.wire() + rest)).skip(v.0.wire().len() as int) =~= v.1.wire() + rest);
    v.1.lemma_round_trip(rest);
}

/// Backward compatibility: bytes written under a three-field declaration
/// decode under the earlier two-field declaration into the same first two
/// fields, and the stream advances past the field the consumer does not
/// know: the whole encoding is consumed.
pub proof fn lemma_record_backward_compat<T0: Codec, T1: Codec, T2: Codec>(
    v: &(T0, T1, T2),
    rest: Seq<u8>,
)
    requires
        v.encodable(),
    ensures
        <(T0, T1)>::dec(v.wire() + rest) == Ok::<_, WireError>(
            ((v.0.model(), v.1.model()), v.wire().len()),
        ),
{
    let shdr = frame_bytes(len_frame(3));
    let b = v.wire() + rest;
    lemma_frame_round_trip(len_frame(3), v.0.wire() + (v.1.wire() + (v.2.wire() + rest)));
    assert(b =~= shdr + (v.0.wire() + (v.1.wire() + (v.2.wire() + rest))));
    assert(b.skip(shdr.len() as int) =~= v.0.wire() + (v.1.wire() + (v.2.wire() + rest)));
    v.0.lemma_round_trip(v.1.wire() + (v.2.wire() + rest));
    assert((v.0.wire() + (v.1.wire() + (v.2.wire() + rest))).skip(v.0.wire().len() as int)
        =~= v.1.wire() + (v.2.wire() + rest));
    v.1.lemma_round_trip(v.2.wire() + rest);
    assert((v.1.wire() + (v.2.wire() + rest)).skip(v.1.wire().len() as int) =~= v.2.wire() + rest);
    v.2.lemma_skippable(rest);
}

/// Union compatibility, first direction: a variant encoded in unit form
/// (a plain value carrying the tag) decodes, under a definition where that
/// variant has a field, into the all-defaults construction of the variant.
pub proof fn lemma_union_unit_decodes_with_defaults<T: Codec>(rest: Seq<u8>)
    ensures
        <Option<T>>::dec(enum_head_bytes(1, 0) + rest) == Ok::<_, WireError>(
            (Option::Some(T::default_model()), enum_head_bytes(1, 0).len()),
        ),
{
    lemma_frame_round_trip(value_frame(1), rest);
}

/// Union compatibility, second direction: a variant encoded with a payload
/// record decodes, under a definition where that variant is unit, by
/// consuming the inner record structurally.
pub proof fn lemma_union_payload_into_unit<T: Codec, U: Encode>(u: &(U,), rest: Seq<u8>)
    requires
        u.encodable(),
    ensures
        <Option<T>>::dec(frame_bytes(VarIntLen::EnumTag(0)) + (u.wire() + rest)) == Ok::<
            _,
            WireError,
        >((Option::<T::Model>::None, (1 + u.wire().len()) as nat)),
{
    let hdr = frame_bytes(VarIntLen::EnumTag(0));
    let b = hdr + (u.wire() + rest);
    lemma_frame_round_trip(VarIntLen::EnumTag(0), u.wire() + rest);
    assert(b.skip(hdr.len() as int) =~= u.wire() + rest);
    let shdr = frame_bytes(len_frame(1));
    lemma_frame_round_trip(len_frame(1), u.0.wire() + rest);
    assert(u.wire() + rest =~= shdr + (u.0.wire() + rest));
    assert((u.wire() + rest).skip(shdr.len() as int) =~= u.0.wire() + rest);
    u.0.lemma_skippable(rest);
}

/// A tag with no matching variant is the error that names the union and the
/// tag, whether the producer sent the variant in unit or in payload form.
pub proof fn lemma_union_unknown_tag<T: Codec>(tag: u32, rest: Seq<u8>)
    requires
        tag >= 2,
    ensures
        <Option<T>>::dec(uint_bytes(tag as u128) + rest) == Err::<
            (Option<T::Model>, nat),
            _,
        >(WireError::UnknownVariant { enum_name: "Option"@, tag }),
        <Option<T>>::dec(frame_bytes(VarIntLen::EnumTag(tag)) + rest) == Err::<
            (Option<T::Model>, nat),
            _,
        >(WireError::UnknownVariant { enum_name: "Option"@, tag }),
{
    lemma_frame_round_trip(value_frame(tag as u128), rest);
    lemma_frame_round_trip(VarIntLen::EnumTag(tag), rest);
}

} // verus!
