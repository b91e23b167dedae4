//! A self-describing binary serialization format with schema evolution.
//!
//! Values are framed by a bit-packed variable-length integer codec
//! ([`frame::VarIntLen`]): one self-identifying header byte that carries the
//! frame's category (plain value, union tag, byte-blob size, or record
//! length) plus up to sixteen little-endian payload bytes.  On top of the
//! frames sits a wire encoder and decoder ([`wire::Encoder`],
//! [`wire::Decoder`]) that translate protocol events (scalars, strings, byte
//! blobs, sequences, records, unions) into frames, and the [`codec::Encode`]
//! and [`codec::Decode`] adapters for the common parametric shapes.  Records
//! and unions tolerate a producer whose declaration has more or fewer fields
//! than the consumer's: missing fields take their defaults and surplus
//! fields are skipped structurally.  The guarantees are stated as proved
//! laws: every frame and every adapter round-trips ([`codec::Codec`]), the
//! written form is the unique minimal encoding of a frame, skipping a value
//! consumes exactly its bytes, and the evolution rules hold across revisions
//! ([`compat`]).

pub mod adapters;
pub mod bytes;
pub mod codec;
pub mod compat;
pub mod error;
pub mod frame;
pub mod tags;
pub mod transport;
pub mod wire;
pub mod zigzag;
