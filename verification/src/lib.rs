//! Codec for a tagged, self-describing binary wire format ("TDF") and the
//! length-framed packets that carry a stream of such values.
//!
//! Every encoder is specified by a spec-level byte-sequence function and every
//! decoder by a spec-level parser; round-trip theorems connect the two.

pub mod label;
pub mod packet;
pub mod roundtrip;
pub mod tdf;
pub mod utf8;
pub mod varint;
pub mod wire;
